use alien_order::adjacency;
use alien_order::index_chars;
use alien_order::maxplus_row;
use alien_order::restore_chars;
use alien_order::sorted_indices;
use alien_order::OrderError;

fn to_words(ws: &[&str]) -> Vec<String> {
    ws.iter().map(|s| s.to_string()).collect()
}

#[test]
fn index_chars_first_seen_order() {
    let (indexed, chars) = index_chars(&to_words(&["bca", "aaa"]));
    assert_eq!(vec!['b', 'c', 'a'], chars);
    assert_eq!(vec![vec![0, 1, 2], vec![2, 2, 2]], indexed);
}

#[test]
fn index_then_restore_round_trip() {
    let words = to_words(&["baa", "abcd", "abca", "cab", "cad"]);
    let (indexed, chars) = index_chars(&words);
    for (word, indices) in words.iter().zip(indexed.iter()) {
        let restored: String = restore_chars(indices, &chars).into_iter().collect();
        assert_eq!(word, &restored);
    }
}

#[test]
fn adjacency_first_difference_only() {
    // words "ab", "ba": one edge 0 -> 1 from the first position
    let indexed = vec![vec![0, 1], vec![1, 0]];
    let adj = adjacency(&indexed, 2);
    assert_eq!(vec![vec![0, 1], vec![0, 0]], adj);
}

#[test]
fn adjacency_prefix_adds_no_edge() {
    // "a" then "aa": identical through the shorter word
    let indexed = vec![vec![0], vec![0, 0]];
    let adj = adjacency(&indexed, 1);
    assert_eq!(vec![vec![0]], adj);
}

#[test]
fn maxplus_row_combines_two_legs() {
    let dist = vec![vec![0, 1, 0], vec![0, 0, 1], vec![0, 0, 0]];
    assert_eq!(vec![0, 1, 2], maxplus_row(&dist, 0));
    assert_eq!(vec![0, 0, 1], maxplus_row(&dist, 1));
    assert_eq!(vec![0, 0, 0], maxplus_row(&dist, 2));
}

#[test]
fn sorted_indices_orders_by_chain_length() {
    // index 0 reaches chains of length 1, index 1 none
    let dist = vec![vec![0, 1], vec![0, 0]];
    assert_eq!(Ok(vec![0, 1]), sorted_indices(&dist));
}

#[test]
fn sorted_indices_detects_cycle() {
    // an entry at the dimension signals a cycle on the first row
    let dist = vec![vec![0, 2], vec![2, 0]];
    assert_eq!(
        Err(OrderError::CycleDetected { index: 0 }),
        sorted_indices(&dist)
    );
}
