use git_dit::accumulation::{
    AccumulationPolicy, Accumulator, SingleAccumulator, Trailer, TrailerValue, ValueAccumulator,
};

// ValueAccumulator tests

#[test]
fn accumulate_latest() {
    let mut acc = ValueAccumulator::from(AccumulationPolicy::Latest);
    acc.process(TrailerValue::from_slice("foo-bar"));
    acc.process(TrailerValue::from_slice("baz"));

    let mut values = acc.into_values().into_iter();
    assert_eq!(values.next().expect("Could not retrieve value").to_string(), "foo-bar");
    assert_eq!(values.next(), None);
}

#[test]
fn accumulate_list() {
    let mut acc = ValueAccumulator::from(AccumulationPolicy::List);
    acc.process(TrailerValue::from_slice("foo-bar"));
    acc.process(TrailerValue::from_slice("baz"));

    let mut values = acc.into_values().into_iter();
    assert_eq!(values.next().expect("Could not retrieve value").to_string(), "foo-bar");
    assert_eq!(values.next().expect("Could not retrieve value").to_string(), "baz");
    assert_eq!(values.next(), None);
}

#[test]
fn accumulator_default_is_empty_latest() {
    let acc = ValueAccumulator::default();
    let values = acc.into_values();
    assert!(values.is_empty());
}

#[test]
fn single_accumulator_matches_key_only() {
    let mut acc = SingleAccumulator::new(String::from("assignee"), AccumulationPolicy::List);
    acc.process(Trailer::new(
        String::from("assignee"),
        TrailerValue::from_slice("alice"),
    ));
    acc.process(Trailer::new(
        String::from("status"),
        TrailerValue::from_slice("open"),
    ));
    acc.process(Trailer::new(
        String::from("assignee"),
        TrailerValue::from_slice("bob"),
    ));

    let values = acc.into_values();
    assert_eq!(values.len(), 2);
    assert_eq!(values[0].to_string(), "alice");
    assert_eq!(values[1].to_string(), "bob");
}

#[test]
fn single_accumulator_process_all_in_order() {
    let mut acc = SingleAccumulator::new(String::from("tag"), AccumulationPolicy::Latest);
    let batch = vec![
        Trailer::new(String::from("tag"), TrailerValue::from_slice("first")),
        Trailer::new(String::from("tag"), TrailerValue::from_slice("second")),
    ];
    acc.process_all(batch);

    let values = acc.into_values();
    assert_eq!(values.len(), 1);
    assert_eq!(values[0].to_string(), "first");
}

#[test]
fn assembly_iterator_pairs_key_with_values() {
    let mut acc = SingleAccumulator::new(String::from("tag"), AccumulationPolicy::List);
    acc.process(Trailer::new(String::from("tag"), TrailerValue::from_slice("a")));
    acc.process(Trailer::new(String::from("tag"), TrailerValue::from_slice("b")));

    let mut pairs = acc.into_iter();
    let first = pairs.next().expect("first pair");
    assert_eq!(first.0, "tag");
    assert_eq!(first.1.to_string(), "a");
    let second = pairs.next().expect("second pair");
    assert_eq!(second.0, "tag");
    assert_eq!(second.1.to_string(), "b");
    assert!(pairs.next().is_none());
}
