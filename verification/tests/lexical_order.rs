use alien_order::lexical_order;
use alien_order::OrderError;

fn to_words(ws: &[&str]) -> Vec<String> {
    ws.iter().map(|s| s.to_string()).collect()
}

#[test]
fn lexical_order_test() {
    assert_eq!(Ok(vec![]), lexical_order(&to_words(&[])), "(empty)");
    assert_eq!(Ok(vec!['a']), lexical_order(&to_words(&["a", "aa"])), "a");
    assert_eq!(Ok(vec!['a', 'b']), lexical_order(&to_words(&["a", "b"])), "ab");
    // Test cases from:
    // https://www.geeksforgeeks.org/given-sorted-dictionary-find-precedence-characters/
    assert_eq!(
        Ok(vec!['b', 'a', 'c']),
        lexical_order(&to_words(&["bca", "aaa", "acb"])),
        "bac"
    );
    assert_eq!(
        Ok(vec!['b', 'd', 'a', 'c']),
        lexical_order(&to_words(&["baa", "abcd", "abca", "cab", "cad"])),
        "bdac"
    );
}

#[test]
fn single_word_single_char() {
    assert_eq!(Ok(vec!['a']), lexical_order(&to_words(&["a"])));
    assert_eq!(Ok(vec!['a']), lexical_order(&to_words(&["aa", "aa"])));
}

#[test]
fn empty_word_prefix() {
    assert_eq!(Ok(vec!['a']), lexical_order(&to_words(&["", "a"])));
}

#[test]
fn cyclic_precedence_fails() {
    // edges: x before y, y before z, z before x
    let res = lexical_order(&to_words(&["xy", "yz", "zx", "xz"]));
    assert!(matches!(res, Err(OrderError::CycleDetected { .. })), "{:?}", res);
}

#[test]
fn unconstrained_characters_collide() {
    // one word, two characters, no edge: both rank last
    let res = lexical_order(&to_words(&["ab"]));
    assert_eq!(
        Err(OrderError::RankCollision {
            rank: 1,
            index: 1,
            prior: 0
        }),
        res
    );
}

#[test]
fn rerun_is_identical() {
    let words = to_words(&["baa", "abcd", "abca", "cab", "cad"]);
    let first = lexical_order(&words);
    let second = lexical_order(&words);
    assert_eq!(first, second);
    assert_eq!(Ok(vec!['b', 'd', 'a', 'c']), first);
}
