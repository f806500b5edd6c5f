use didyoumean::best_matches;
use didyoumean::TopNSelector;

fn words(list: &[&str]) -> Vec<String> {
    list.iter().map(|w| w.to_string()).collect()
}

#[test]
fn ranks_the_dictionary_by_distance() {
    let dictionary = words(&["sitting", "mitten", "kitchen", "kitten", "smitten"]);
    let (top, dists) = best_matches("kitten", &dictionary, 3);
    // "kitchen" and "smitten" are both at distance 2; "kitchen" arrived
    // first and keeps the slot.
    assert_eq!(top, words(&["kitten", "mitten", "kitchen"]));
    assert_eq!(dists, vec![0, 1, 2]);
}

#[test]
fn sentinel_slots_mark_missing_matches() {
    // The sentinel is ten times the query length; slots no candidate beat
    // keep it, with an empty word.
    let dictionary = words(&["abd"]);
    let (top, dists) = best_matches("abc", &dictionary, 3);
    assert_eq!(top, words(&["abd", "", ""]));
    assert_eq!(dists, vec![1, 30, 30]);
}

#[test]
fn equal_distances_keep_stream_order() {
    let dictionary = words(&["cot", "cap", "cut"]);
    let (top, dists) = best_matches("cat", &dictionary, 3);
    assert_eq!(top, words(&["cot", "cap", "cut"]));
    assert_eq!(dists, vec![1, 1, 1]);
}

#[test]
fn offer_all_matches_manual_offers() {
    let dictionary = words(&["sunday", "monday", "saturday"]);
    let query = "satur";
    let mut by_hand = TopNSelector::new(2, 50);
    for word in &dictionary {
        let d = didyoumean::edit_distance(query, word);
        by_hand.offer(word.clone(), d);
    }
    let mut driven = TopNSelector::new(2, 50);
    driven.offer_all(query, &dictionary);
    assert_eq!(by_hand.finalize(), driven.finalize());
}

#[test]
fn empty_dictionary_leaves_only_sentinels() {
    let dictionary: Vec<String> = Vec::new();
    let (top, dists) = best_matches("word", &dictionary, 2);
    assert_eq!(top, words(&["", ""]));
    assert_eq!(dists, vec![40, 40]);
}
