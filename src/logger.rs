use vstd::prelude::*;

use std::collections::VecDeque;

use crate::record::{fields_view, Record};

verus! {

/// The queue that results from appending `records`, one at a time and in
/// order, to the back of `queue`.
pub open spec fn appended(queue: Seq<Record>, records: Seq<Record>) -> Seq<Record>
    decreases records.len(),
{
    if records.len() == 0 {
        queue
    } else {
        appended(queue, records.drop_last()).push(records.last())
    }
}

/// What `n` pops from the front of `queue` return, in order, and what is
/// left after them. A pop on an empty queue returns nothing.
pub open spec fn popped(queue: Seq<Record>, n: nat) -> (Seq<Record>, Seq<Record>)
    decreases n,
{
    if n == 0 || queue.len() == 0 {
        (Seq::empty(), queue)
    } else {
        let (taken, left) = popped(queue.drop_first(), (n - 1) as nat);
        (seq![queue[0]] + taken, left)
    }
}

/// The capture queue: log records in the order they were captured.
#[derive(Debug)]
pub struct Logger {
    events: VecDeque<Record>,
}

impl View for Logger {
    type V = Seq<Record>;

    closed spec fn view(&self) -> Seq<Record> {
        self.events@
    }
}

impl Logger {
    /// Creates an empty capture queue.
    pub fn start() -> (r: Logger)
        ensures
            r@ == Seq::<Record>::empty(),
    {
        Logger { events: VecDeque::new() }
    }

    /// Captures one log event: its rendered message, level, target and
    /// structured fields become a record at the back of the queue.
    pub fn capture(
        &mut self,
        args: String,
        level: log::Level,
        target: String,
        pairs: Vec<(String, String)>,
    )
        ensures
            final(self)@.len() == old(self)@.len() + 1,
            final(self)@ == old(self)@.push(final(self)@.last()),
            final(self)@.last()@.captures(args@, level, target@, fields_view(pairs@)),
    {
        let record = Record::new(args, level, target, pairs);
        self.events.push_back(record);
    }

    /// Pops an event from the front of the event queue.
    #[must_use]
    pub fn pop(&mut self) -> (r: Option<Record>)
        ensures
            old(self)@.len() == 0 ==> r is None && final(self)@ == old(self)@,
            old(self)@.len() > 0 ==> r == Some(old(self)@[0]) && final(self)@
                == old(self)@.drop_first(),
    {
        let r = self.events.pop_front();
        proof {
            if old(self)@.len() > 0 {
                assert(self@ =~= old(self)@.drop_first());
            }
        }
        r
    }

    /// Takes the next record in capture order; the same as [`Logger::pop`].
    pub fn next(&mut self) -> (r: Option<Record>)
        ensures
            old(self)@.len() == 0 ==> r is None && final(self)@ == old(self)@,
            old(self)@.len() > 0 ==> r == Some(old(self)@[0]) && final(self)@
                == old(self)@.drop_first(),
    {
        self.pop()
    }

    /// Returns the number of records in the queue.
    pub fn len(&mut self) -> (r: usize)
        ensures
            r == old(self)@.len(),
            final(self)@ == old(self)@,
    {
        self.events.len()
    }

    /// Returns `true` if the queue holds no record.
    pub fn is_empty(&mut self) -> (r: bool)
        ensures
            r == (old(self)@.len() == 0),
            final(self)@ == old(self)@,
    {
        self.events.len() == 0
    }
}

/// Creates an empty capture queue.
pub fn start() -> (r: Logger)
    ensures
        r@ == Seq::<Record>::empty(),
{
    Logger::start()
}

/// Appending records one at a time puts them behind everything already
/// queued, in the order they were appended: the records of any one producer
/// keep their relative order, however they interleave with another's.
pub proof fn lemma_appended_in_order(queue: Seq<Record>, records: Seq<Record>)
    ensures
        appended(queue, records) == queue + records,
    decreases records.len(),
{
    if records.len() > 0 {
        lemma_appended_in_order(queue, records.drop_last());
        assert(queue + records =~= (queue + records.drop_last()).push(records.last()));
    }
}

/// Popping a queue as many times as it holds records returns all of them in
/// order and leaves it empty.
pub proof fn lemma_popped_all(queue: Seq<Record>)
    ensures
        popped(queue, queue.len()) == (queue, Seq::<Record>::empty()),
    decreases queue.len(),
{
    if queue.len() > 0 {
        lemma_popped_all(queue.drop_first());
        assert(seq![queue[0]] + queue.drop_first() =~= queue);
    }
}

/// First in, first out: after `n` records are captured into an empty queue,
/// the queue holds `n` records, and `n` pops return them in capture order
/// and leave the queue empty.
pub proof fn lemma_fifo(records: Seq<Record>)
    ensures
        appended(Seq::empty(), records).len() == records.len(),
        popped(appended(Seq::empty(), records), records.len()) == (
            records,
            Seq::<Record>::empty(),
        ),
{
    lemma_appended_in_order(Seq::empty(), records);
    assert(Seq::<Record>::empty() + records =~= records);
    lemma_popped_all(records);
}

} // verus!
