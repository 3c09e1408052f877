use stream_analytics::Tally;

#[test]
fn a_new_tally_is_neutral() {
    let t = Tally::new();
    assert_eq!(t, Tally { count: 0, first: None, last: None });
    assert_eq!(Tally::default(), t);
}

#[test]
fn add_counts_and_keeps_first_and_last() {
    let mut t = Tally::new();
    t.add(10);
    assert_eq!(t, Tally { count: 1, first: Some(10), last: Some(10) });
    t.add(20);
    t.add(30);
    assert_eq!(t, Tally { count: 3, first: Some(10), last: Some(30) });
}

#[test]
fn remove_on_an_empty_tally_changes_nothing() {
    let mut t = Tally::new();
    t.remove();
    assert_eq!(t, Tally::new());
}

#[test]
fn removing_all_that_was_added_leaves_the_neutral_tally() {
    let values = [1.5f64, -2.0, 0.0, 7.25];
    let mut t = Tally::new();
    for v in values {
        t.add(v.to_bits());
    }
    assert_eq!(t.count, 4);
    t.remove();
    assert_eq!(t, Tally { count: 3, first: Some(1.5f64.to_bits()), last: Some(7.25f64.to_bits()) });
    t.remove();
    t.remove();
    assert_eq!(t.count, 1);
    t.remove();
    assert_eq!(t, Tally::new());
}

#[test]
fn merge_is_the_tally_of_both_runs_in_order() {
    let all = [1u64, 2, 3, 4, 5];
    for split in 0..=all.len() {
        let mut left = Tally::new();
        for v in &all[..split] {
            left.add(*v);
        }
        let mut right = Tally::new();
        for v in &all[split..] {
            right.add(*v);
        }
        left.merge(&right);
        assert_eq!(left, Tally { count: 5, first: Some(1), last: Some(5) });
    }
}

#[test]
fn merge_with_an_empty_tally_changes_nothing() {
    let mut t = Tally::new();
    t.add(4);
    t.add(5);
    let before = t;
    t.merge(&Tally::new());
    assert_eq!(t, before);
    let mut empty = Tally::new();
    empty.merge(&before);
    assert_eq!(empty, before);
    let mut both = Tally::new();
    both.merge(&Tally::new());
    assert_eq!(both, Tally::new());
}
