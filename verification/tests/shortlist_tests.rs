use didyoumean::insert_and_shift;
use didyoumean::TopNSelector;

fn feed(sel: &mut TopNSelector, stream: &[(&str, usize)]) {
    for (word, dist) in stream {
        sel.offer(word.to_string(), *dist);
    }
}

#[test]
fn insert_and_shift_keeps_length() {
    let mut to_shift = vec![0, 1, 2, 3, 4];
    insert_and_shift(&mut to_shift, 2, 11);
    assert_eq!(to_shift, vec![0, 1, 11, 2, 3]);
}

#[test]
fn insert_and_shift_at_front_and_back() {
    let mut v = vec![10, 20, 30];
    insert_and_shift(&mut v, 0, 5);
    assert_eq!(v, vec![5, 10, 20]);
    insert_and_shift(&mut v, 2, 99);
    assert_eq!(v, vec![5, 10, 99]);
}

#[test]
fn insert_and_shift_out_of_range_is_a_no_op() {
    let mut v = vec![1, 2, 3];
    insert_and_shift(&mut v, 3, 7);
    assert_eq!(v, vec![1, 2, 3]);
    let mut empty: Vec<i32> = vec![];
    insert_and_shift(&mut empty, 0, 7);
    assert_eq!(empty, Vec::<i32>::new());
}

#[test]
fn top_three_with_stable_ties() {
    // Distances [5, 2, 8, 1, 2] for candidates ["e", "b", "h", "a", "c"]:
    // "b" arrived before "c" among the equal distances, so it keeps the
    // earlier slot.
    let mut sel = TopNSelector::new(3, 60);
    feed(&mut sel, &[("e", 5), ("b", 2), ("h", 8), ("a", 1), ("c", 2)]);
    let (words, dists) = sel.finalize();
    assert_eq!(words, vec!["a".to_string(), "b".to_string(), "c".to_string()]);
    assert_eq!(dists, vec![1, 2, 2]);
}

#[test]
fn capacity_is_never_exceeded() {
    let mut sel = TopNSelector::new(3, 1000);
    for d in 0..100usize {
        sel.offer(format!("w{}", d), 100 - d);
    }
    let (words, dists) = sel.finalize();
    assert_eq!(words.len(), 3);
    assert_eq!(dists.len(), 3);
    assert_eq!(dists, vec![1, 2, 3]);
}

#[test]
fn refeeding_the_same_stream_gives_the_same_result() {
    let stream = [("e", 5), ("b", 2), ("h", 8), ("a", 1), ("c", 2), ("z", 4)];
    let mut first = TopNSelector::new(4, 90);
    feed(&mut first, &stream);
    let mut second = TopNSelector::new(4, 90);
    feed(&mut second, &stream);
    assert_eq!(first.finalize(), second.finalize());
}

#[test]
fn offering_the_current_worst_changes_nothing() {
    let mut sel = TopNSelector::new(3, 60);
    feed(&mut sel, &[("a", 1), ("b", 2), ("c", 2)]);
    // The worst tracked distance is now 2; an equal offer is discarded.
    sel.offer("d".to_string(), 2);
    let (words, dists) = sel.finalize();
    assert_eq!(words, vec!["a".to_string(), "b".to_string(), "c".to_string()]);
    assert_eq!(dists, vec![1, 2, 2]);
}

#[test]
fn offering_the_sentinel_changes_nothing() {
    let mut sel = TopNSelector::new(2, 40);
    sel.offer("far".to_string(), 40);
    let (words, dists) = sel.finalize();
    assert_eq!(words, vec!["".to_string(), "".to_string()]);
    assert_eq!(dists, vec![40, 40]);
}

#[test]
fn zero_capacity_is_a_valid_no_op() {
    let mut sel = TopNSelector::new(0, 10);
    sel.offer("anything".to_string(), 0);
    let (words, dists) = sel.finalize();
    assert!(words.is_empty());
    assert!(dists.is_empty());
}
