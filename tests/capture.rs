use log::Level;
use logtest::{start, Logger, Record};

fn plain(logger: &mut Logger, message: &str) {
    logger.capture(message.to_owned(), Level::Info, "capture".to_owned(), vec![]);
}

fn fields(pairs: &[(&str, &str)]) -> Vec<(String, String)> {
    pairs
        .iter()
        .map(|(k, v)| (k.to_string(), v.to_string()))
        .collect()
}

#[test]
fn records_come_out_in_capture_order() {
    let mut logger = Logger::start();
    let messages = ["one", "two", "three", "four", "five"];
    for m in messages.iter() {
        plain(&mut logger, m);
    }
    assert_eq!(logger.len(), 5);
    for m in messages.iter() {
        assert_eq!(logger.pop().unwrap().args(), *m);
    }
    assert!(logger.pop().is_none());
    assert_eq!(logger.len(), 0);
}

#[test]
fn empty_exactly_when_length_is_zero() {
    let mut logger = start();
    assert!(logger.is_empty());
    assert_eq!(logger.len(), 0);
    plain(&mut logger, "a");
    assert!(!logger.is_empty());
    assert_eq!(logger.len(), 1);
    let _ = logger.pop();
    assert!(logger.is_empty());
    assert_eq!(logger.len(), 0);
}

#[test]
fn pop_on_empty_queue_returns_none() {
    let mut logger = Logger::start();
    assert!(logger.pop().is_none());
    assert!(logger.next().is_none());
    assert_eq!(logger.len(), 0);
}

#[test]
fn message_text_is_kept_exactly() {
    let mut logger = Logger::start();
    let text = "  spaced \t text with \"quotes\", {braces} and ünïcode \n";
    plain(&mut logger, text);
    plain(&mut logger, "");
    assert_eq!(logger.pop().unwrap().args(), text);
    assert_eq!(logger.pop().unwrap().args(), "");
}

#[test]
fn one_entry_per_structured_field() {
    let record = Record::new(
        "request".to_owned(),
        Level::Debug,
        "http".to_owned(),
        fields(&[("method", "\"GET\""), ("status", "200"), ("ok", "true")]),
    );
    assert_eq!(
        record.key_values(),
        fields(&[("method", "\"GET\""), ("status", "200"), ("ok", "true")])
    );
}

#[test]
fn no_fields_gives_no_entries() {
    let record = Record::new("bare".to_owned(), Level::Trace, "t".to_owned(), vec![]);
    assert!(record.key_values().is_empty());
}

#[test]
fn repeated_field_name_keeps_last_value() {
    let record = Record::new(
        "dup".to_owned(),
        Level::Info,
        "t".to_owned(),
        fields(&[("a", "1"), ("b", "2"), ("a", "3")]),
    );
    let mut kv = record.key_values();
    kv.sort();
    assert_eq!(kv, fields(&[("a", "3"), ("b", "2")]));
}

#[test]
fn level_and_target_are_kept() {
    let mut logger = Logger::start();
    logger.capture("w".to_owned(), Level::Warn, "app::db".to_owned(), vec![]);
    logger.capture("e".to_owned(), Level::Error, "".to_owned(), vec![]);
    let first = logger.pop().unwrap();
    assert_eq!(first.level(), Level::Warn);
    assert_eq!(first.target(), "app::db");
    let second = logger.pop().unwrap();
    assert_eq!(second.level(), Level::Error);
    assert_eq!(second.target(), "");
}

#[test]
fn hello_world_then_empty() {
    let mut logger = Logger::start();
    plain(&mut logger, "hello");
    plain(&mut logger, "world");
    assert_eq!(logger.len(), 2);
    assert_eq!(logger.pop().unwrap().args(), "hello");
    assert_eq!(logger.pop().unwrap().args(), "world");
    assert!(logger.pop().is_none());
    assert_eq!(logger.len(), 0);
}

#[test]
fn quoted_text_field_value() {
    let mut logger = Logger::start();
    let blue = log::kv::Value::from_debug(&"blue").to_string();
    logger.capture(
        "hello".to_owned(),
        Level::Info,
        "capture".to_owned(),
        vec![("color".to_owned(), blue)],
    );
    let record = logger.pop().unwrap();
    assert_eq!(record.args(), "hello");
    assert_eq!(
        record.key_values(),
        vec![("color".to_owned(), "\"blue\"".to_owned())]
    );
}

#[test]
fn interleaved_producers_keep_their_own_order() {
    let mut logger = Logger::start();
    plain(&mut logger, "a1");
    plain(&mut logger, "b1");
    plain(&mut logger, "b2");
    plain(&mut logger, "a2");
    assert_eq!(logger.len(), 4);
    let order: Vec<String> = (0..4)
        .map(|_| logger.pop().unwrap().args().to_owned())
        .collect();
    let pos = |m: &str| order.iter().position(|x| x == m).unwrap();
    assert!(pos("a1") < pos("a2"));
    assert!(pos("b1") < pos("b2"));
}

#[test]
fn next_takes_records_like_pop() {
    let mut logger = Logger::start();
    plain(&mut logger, "x");
    plain(&mut logger, "y");
    assert_eq!(logger.next().unwrap().args(), "x");
    assert_eq!(logger.pop().unwrap().args(), "y");
    assert!(logger.next().is_none());
}

#[test]
fn records_with_same_fields_in_any_order_are_equal() {
    let a = Record::new(
        "m".to_owned(),
        Level::Info,
        "t".to_owned(),
        fields(&[("x", "1"), ("y", "2")]),
    );
    let b = Record::new(
        "m".to_owned(),
        Level::Info,
        "t".to_owned(),
        fields(&[("y", "2"), ("x", "1")]),
    );
    assert_eq!(a, b);
}

#[test]
fn records_differing_in_one_part_are_unequal() {
    let base = || fields(&[("x", "1")]);
    let a = Record::new("m".to_owned(), Level::Info, "t".to_owned(), base());
    assert_ne!(a, Record::new("n".to_owned(), Level::Info, "t".to_owned(), base()));
    assert_ne!(a, Record::new("m".to_owned(), Level::Warn, "t".to_owned(), base()));
    assert_ne!(a, Record::new("m".to_owned(), Level::Info, "u".to_owned(), base()));
    assert_ne!(
        a,
        Record::new("m".to_owned(), Level::Info, "t".to_owned(), fields(&[("x", "2")]))
    );
    assert_ne!(
        a,
        Record::new("m".to_owned(), Level::Info, "t".to_owned(), fields(&[("z", "1")]))
    );
    assert_ne!(a, Record::new("m".to_owned(), Level::Info, "t".to_owned(), vec![]));
}
