use vstd::prelude::*;
use vstd::set_lib::lemma_subset_equality;

verus! {

/// `log::Level`: the severity of an event, carried through unchanged.
#[verifier::external_type_specification]
#[verifier::external_body]
pub struct ExLevel(log::Level);

/// Relies on the `PartialEq` that `log` derives for the field-less enum
/// `Level`: two levels are equal exactly when they are the same variant.
pub assume_specification[ <log::Level as PartialEq>::eq ](a: &log::Level, b: &log::Level) -> (r:
    bool)
    ensures
        r == (*a == *b),
;

/// A structured field as seen in contracts: its name and its rendered value.
pub type FieldView = (Seq<char>, Seq<char>);

/// The fields of a sequence of owned pairs, as text.
pub open spec fn fields_view(pairs: Seq<(String, String)>) -> Seq<FieldView> {
    pairs.map_values(|p: (String, String)| (p.0@, p.1@))
}

/// No two entries share a name.
pub open spec fn keys_distinct(fields: Seq<FieldView>) -> bool {
    forall|i: int, j: int| 0 <= i < j < fields.len() ==> fields[i].0 != fields[j].0
}

/// The mapping that inserting `fields` in order gives: a later entry for a
/// name overwrites an earlier one.
pub open spec fn field_map(fields: Seq<FieldView>) -> Map<Seq<char>, Seq<char>>
    decreases fields.len(),
{
    if fields.len() == 0 {
        Map::empty()
    } else {
        field_map(fields.drop_last()).insert(fields.last().0, fields.last().1)
    }
}

/// The contents of a [`Record`].
pub struct RecordView {
    pub args: Seq<char>,
    pub level: log::Level,
    pub target: Seq<char>,
    pub key_values: Seq<FieldView>,
}

impl RecordView {
    /// This record is what capturing an event with the given message, level,
    /// target and fields (in the order the event lists them) produces.
    pub open spec fn captures(
        self,
        args: Seq<char>,
        level: log::Level,
        target: Seq<char>,
        fields: Seq<FieldView>,
    ) -> bool {
        &&& self.args == args
        &&& self.level == level
        &&& self.target == target
        &&& keys_distinct(self.key_values)
        &&& field_map(self.key_values) == field_map(fields)
        &&& keys_distinct(fields) ==> self.key_values == fields
    }
}

/// The "payload" of a log message.
#[derive(Debug, Eq)]
pub struct Record {
    args: String,
    level: log::Level,
    target: String,
    key_values: Vec<(String, String)>,
}

impl View for Record {
    type V = RecordView;

    closed spec fn view(&self) -> RecordView {
        RecordView {
            args: self.args@,
            level: self.level,
            target: self.target@,
            key_values: fields_view(self.key_values@),
        }
    }
}

impl Record {
    #[verifier::type_invariant]
    spec fn inv(&self) -> bool {
        keys_distinct(fields_view(self.key_values@))
    }

    /// Builds the record of one event: its rendered message, its level, its
    /// target, and its structured fields in the order the event lists them.
    /// A field whose name was already seen replaces the earlier value.
    pub fn new(args: String, level: log::Level, target: String, pairs: Vec<(String, String)>) -> (r:
        Record)
        ensures
            r@.captures(args@, level, target@, fields_view(pairs@)),
    {
        let mut entries: Vec<(String, String)> = Vec::new();
        let mut i: usize = 0;
        while i < pairs.len()
            invariant
                i <= pairs.len(),
                keys_distinct(fields_view(entries@)),
                field_map(fields_view(entries@)) == field_map(fields_view(pairs@).take(i as int)),
                keys_distinct(fields_view(pairs@).take(i as int)) ==> fields_view(entries@)
                    == fields_view(pairs@).take(i as int),
            decreases pairs.len() - i,
        {
            let key = pairs[i].0.clone();
            let value = pairs[i].1.clone();
            let ghost before = fields_view(pairs@).take(i as int);
            let ghost after = fields_view(pairs@).take(i + 1);
            let ghost prior = entries@;
            proof {
                assert(after =~= before.push((key@, value@)));
                assert(after.drop_last() =~= before);
                if keys_distinct(after) {
                    assert forall|a: int, b: int| 0 <= a < b < before.len() implies before[a].0
                        != before[b].0 by {
                        assert(after[a] == before[a] && after[b] == before[b]);
                    }
                    assert forall|a: int| 0 <= a < prior.len() implies prior[a].0@ != key@ by {
                        assert(fields_view(prior)[a] == before[a]);
                        assert(after[a] == before[a]);
                        assert(after[before.len() as int].0 == key@);
                    }
                }
            }
            insert_field(&mut entries, key, value);
            i += 1;
        }
        proof {
            assert(fields_view(pairs@).take(pairs.len() as int) =~= fields_view(pairs@));
        }
        Record { args, level, target, key_values: entries }
    }

    /// The message body.
    pub fn args(&self) -> (r: &str)
        ensures
            r@ == self@.args,
    {
        self.args.as_str()
    }

    /// The verbosity level of the message.
    pub fn level(&self) -> (r: log::Level)
        ensures
            r == self@.level,
    {
        self.level
    }

    /// The name of the target of the directive.
    pub fn target(&self) -> (r: &str)
        ensures
            r@ == self@.target,
    {
        self.target.as_str()
    }

    /// The structured key-value pairs associated with the message, one entry
    /// per field name.
    pub fn key_values(&self) -> (r: Vec<(String, String)>)
        ensures
            fields_view(r@) == self@.key_values,
            keys_distinct(fields_view(r@)),
    {
        proof {
            use_type_invariant(self);
        }
        let mut out: Vec<(String, String)> = Vec::new();
        let mut i: usize = 0;
        while i < self.key_values.len()
            invariant
                i <= self.key_values.len(),
                fields_view(out@) == fields_view(self.key_values@).take(i as int),
            decreases self.key_values.len() - i,
        {
            let key = self.key_values[i].0.clone();
            let value = self.key_values[i].1.clone();
            let ghost prior = out@;
            out.push((key, value));
            proof {
                assert(out@ == prior.push((key, value)));
                assert(fields_view(out@) =~= fields_view(prior).push((key@, value@)));
                assert(fields_view(out@) =~= fields_view(self.key_values@).take(i + 1));
            }
            i += 1;
        }
        proof {
            assert(fields_view(self.key_values@).take(i as int) =~= fields_view(self.key_values@));
        }
        out
    }
}

/// Two records are equal when their messages, levels and targets are equal
/// and their fields map the same names to the same values, in any order.
impl PartialEq for Record {
    fn eq(&self, other: &Record) -> (r: bool) {
        proof {
            use_type_invariant(self);
            use_type_invariant(other);
        }
        self.args == other.args && self.level == other.level && self.target == other.target
            && same_fields(&self.key_values, &other.key_values)
    }
}

impl vstd::std_specs::cmp::PartialEqSpecImpl for Record {
    open spec fn obeys_eq_spec() -> bool {
        true
    }

    open spec fn eq_spec(&self, other: &Record) -> bool {
        &&& self@.args == other@.args
        &&& self@.level == other@.level
        &&& self@.target == other@.target
        &&& field_map(self@.key_values) == field_map(other@.key_values)
    }
}

/// Whether two field lists with distinct names give the same mapping.
fn same_fields(a: &Vec<(String, String)>, b: &Vec<(String, String)>) -> (r: bool)
    requires
        keys_distinct(fields_view(a@)),
        keys_distinct(fields_view(b@)),
    ensures
        r == (field_map(fields_view(a@)) == field_map(fields_view(b@))),
{
    let ghost fa = fields_view(a@);
    let ghost fb = fields_view(b@);
    proof {
        lemma_one_entry_per_field(fa);
        lemma_one_entry_per_field(fb);
    }
    if a.len() != b.len() {
        return false;
    }
    let mut i: usize = 0;
    while i < a.len()
        invariant
            i <= a.len() == b.len(),
            fa == fields_view(a@),
            fb == fields_view(b@),
            keys_distinct(fa),
            keys_distinct(fb),
            forall|x: int|
                0 <= x < i ==> field_map(fb).contains_key(#[trigger] fa[x].0) && field_map(
                    fb,
                )[fa[x].0] == fa[x].1,
        decreases a.len() - i,
    {
        proof {
            lemma_one_entry_per_field(fa);
            lemma_one_entry_per_field(fb);
        }
        match find_field(b, &a[i].0) {
            Some(j) => {
                if a[i].1 != b[j].1 {
                    proof {
                        assert(fa[i as int].0 == fb[j as int].0);
                        assert(fa[i as int].1 != fb[j as int].1);
                        assert(field_map(fa).contains_key(fa[i as int].0));
                        assert(field_map(fb).contains_key(fb[j as int].0));
                    }
                    return false;
                }
                proof {
                    assert(fa[i as int] == fb[j as int]);
                    assert(field_map(fb).contains_key(fb[j as int].0));
                }
            },
            None => {
                proof {
                    if field_map(fb).contains_key(fa[i as int].0) {
                        let y = choose|y: int| 0 <= y < fb.len() && fb[y].0 == fa[i as int].0;
                        assert(fb[y].0 == b@[y].0@);
                    }
                }
                return false;
            },
        }
        i += 1;
    }
    proof {
        lemma_one_entry_per_field(fa);
        lemma_one_entry_per_field(fb);
        let ma = field_map(fa);
        let mb = field_map(fb);
        assert(ma.dom().subset_of(mb.dom()));
        lemma_subset_equality(ma.dom(), mb.dom());
        assert(ma =~= mb);
    }
    true
}

/// When an event's field names are distinct, its mapping has one entry per
/// field, under the field's name and with the field's rendered value, and
/// no other entry.
pub proof fn lemma_one_entry_per_field(fields: Seq<FieldView>)
    requires
        keys_distinct(fields),
    ensures
        field_map(fields).dom().finite(),
        field_map(fields).dom().len() == fields.len(),
        forall|i: int|
            0 <= i < fields.len() ==> #[trigger] field_map(fields).contains_key(fields[i].0)
                && field_map(fields)[fields[i].0] == fields[i].1,
        forall|k: Seq<char>|
            #[trigger] field_map(fields).contains_key(k) ==> exists|i: int|
                0 <= i < fields.len() && fields[i].0 == k,
    decreases fields.len(),
{
    if fields.len() > 0 {
        let init = fields.drop_last();
        let last = fields.last();
        assert(keys_distinct(init));
        lemma_one_entry_per_field(init);
        assert(!field_map(init).contains_key(last.0)) by {
            if field_map(init).contains_key(last.0) {
                let i = choose|i: int| 0 <= i < init.len() && init[i].0 == last.0;
                assert(fields[i].0 == fields[fields.len() - 1].0);
            }
        }
        assert forall|i: int| 0 <= i < fields.len() implies #[trigger] field_map(
            fields,
        ).contains_key(fields[i].0) && field_map(fields)[fields[i].0] == fields[i].1 by {
            if i < fields.len() - 1 {
                assert(init[i] == fields[i]);
                assert(fields[i].0 != last.0);
            }
        }
        assert forall|k: Seq<char>| #[trigger] field_map(fields).contains_key(k) implies exists|
            i: int,
        | 0 <= i < fields.len() && fields[i].0 == k by {
            if k != last.0 {
                let i = choose|i: int| 0 <= i < init.len() && init[i].0 == k;
                assert(fields[i] == init[i]);
            } else {
                assert(fields[fields.len() - 1].0 == k);
            }
        }
    }
}

/// Sets `key` to `value` in `entries`: the value of an existing entry with
/// that name is replaced in place, otherwise a new entry goes at the back.
fn insert_field(entries: &mut Vec<(String, String)>, key: String, value: String)
    requires
        keys_distinct(fields_view(old(entries)@)),
    ensures
        keys_distinct(fields_view(final(entries)@)),
        field_map(fields_view(final(entries)@)) == field_map(fields_view(old(entries)@)).insert(
            key@,
            value@,
        ),
        (forall|a: int| 0 <= a < old(entries)@.len() ==> old(entries)@[a].0@ != key@)
            ==> fields_view(final(entries)@) == fields_view(old(entries)@).push((key@, value@)),
{
    let ghost start = fields_view(entries@);
    match find_field(entries, &key) {
        Some(j) => {
            entries.set(j, (key, value));
            proof {
                lemma_field_map_replace(start, j as int, value@);
                assert(fields_view(entries@) =~= start.update(j as int, (start[j as int].0, value@)));
            }
        },
        None => {
            entries.push((key, value));
            proof {
                assert(fields_view(entries@) =~= start.push((key@, value@)));
                assert(fields_view(entries@).drop_last() =~= start);
                assert forall|a: int, b: int|
                    0 <= a < b < fields_view(entries@).len() implies fields_view(entries@)[a].0
                    != fields_view(entries@)[b].0 by {
                    if b == start.len() {
                        assert(fields_view(entries@)[a].0 == entries@[a].0@);
                    } else {
                        assert(fields_view(entries@)[a] == start[a]);
                        assert(fields_view(entries@)[b] == start[b]);
                    }
                }
            }
        },
    }
}

/// The position of the entry named `key`, if there is one.
fn find_field(entries: &Vec<(String, String)>, key: &String) -> (r: Option<usize>)
    ensures
        r matches Some(j) ==> j < entries@.len() && entries@[j as int].0@ == key@,
        r is None ==> forall|a: int| 0 <= a < entries@.len() ==> entries@[a].0@ != key@,
{
    let mut j: usize = 0;
    while j < entries.len()
        invariant
            j <= entries.len(),
            forall|a: int| 0 <= a < j ==> entries@[a].0@ != key@,
        decreases entries.len() - j,
    {
        if entries[j].0 == *key {
            return Some(j);
        }
        j += 1;
    }
    None
}

/// Replacing the value of the entry at `j` in a sequence of distinct names
/// sets that name's value in the mapping.
proof fn lemma_field_map_replace(fields: Seq<FieldView>, j: int, value: Seq<char>)
    requires
        keys_distinct(fields),
        0 <= j < fields.len(),
    ensures
        keys_distinct(fields.update(j, (fields[j].0, value))),
        field_map(fields.update(j, (fields[j].0, value))) == field_map(fields).insert(
            fields[j].0,
            value,
        ),
    decreases fields.len(),
{
    let key = fields[j].0;
    let updated = fields.update(j, (key, value));
    assert(keys_distinct(updated)) by {
        assert forall|a: int, b: int| 0 <= a < b < updated.len() implies updated[a].0
            != updated[b].0 by {
            assert(updated[a].0 == fields[a].0 && updated[b].0 == fields[b].0);
        }
    }
    let last = fields.len() - 1;
    if j == last {
        assert(updated.drop_last() =~= fields.drop_last());
        assert(field_map(updated) =~= field_map(fields).insert(key, value));
    } else {
        let init = fields.drop_last();
        assert(keys_distinct(init));
        lemma_field_map_replace(init, j, value);
        assert(updated.drop_last() =~= init.update(j, (key, value)));
        assert(fields.last().0 != key);
        assert(field_map(updated) =~= field_map(fields).insert(key, value));
    }
}

} // verus!
