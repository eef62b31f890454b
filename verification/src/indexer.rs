//! Character indexing: assigns each distinct character a dense index in
//! order of first appearance, and restores characters from indices.

use vstd::prelude::*;

verus! {

/// The character sequences of a list of words.
pub open spec fn words_view(ws: Seq<String>) -> Seq<Seq<char>> {
    ws.map_values(|s: String| s@)
}

/// `acc` extended by `c` if `c` is not already present.
pub open spec fn insert_char(acc: Seq<char>, c: char) -> Seq<char> {
    if acc.contains(c) {
        acc
    } else {
        acc.push(c)
    }
}

/// `acc` extended by the characters of `w` not yet present, in word order.
pub open spec fn word_alphabet(acc: Seq<char>, w: Seq<char>) -> Seq<char>
    decreases w.len(),
{
    if w.len() == 0 {
        acc
    } else {
        word_alphabet(insert_char(acc, w[0]), w.drop_first())
    }
}

/// `acc` extended by the characters of the words of `ws`, in first-seen order.
pub open spec fn alphabet_from(acc: Seq<char>, ws: Seq<Seq<char>>) -> Seq<char>
    decreases ws.len(),
{
    if ws.len() == 0 {
        acc
    } else {
        alphabet_from(word_alphabet(acc, ws[0]), ws.drop_first())
    }
}

/// The distinct characters of `ws`, in order of first appearance.
pub open spec fn alphabet(ws: Seq<Seq<char>>) -> Seq<char> {
    alphabet_from(Seq::empty(), ws)
}

/// The position of the first occurrence of `c` in `cs`.
pub open spec fn first_index_of(cs: Seq<char>, c: char) -> int
    decreases cs.len(),
{
    if cs.len() == 0 {
        0
    } else if cs[0] == c {
        0
    } else {
        1 + first_index_of(cs.drop_first(), c)
    }
}

/// Extending a duplicate-free alphabet with a word keeps it duplicate-free
/// and adds exactly the characters of the word.
pub proof fn lemma_word_alphabet(acc: Seq<char>, w: Seq<char>)
    requires
        acc.no_duplicates(),
    ensures
        word_alphabet(acc, w).no_duplicates(),
        forall|c: char| word_alphabet(acc, w).contains(c) <==> acc.contains(c) || w.contains(c),
    decreases w.len(),
{
    if w.len() == 0 {
        assert(forall|c: char| !w.contains(c));
    } else {
        let acc1 = insert_char(acc, w[0]);
        assert(acc1.no_duplicates()) by {
            if !acc.contains(w[0]) {
                assert(forall|i: int| 0 <= i < acc.len() ==> acc.push(w[0])[i] == acc[i]);
            }
        }
        assert(forall|c: char| acc1.contains(c) <==> acc.contains(c) || c == w[0]) by {
            assert forall|c: char| acc1.contains(c) implies acc.contains(c) || c == w[0] by {
                let i = choose|i: int| 0 <= i < acc1.len() && acc1[i] == c;
                if i < acc.len() {
                    assert(acc[i] == c);
                }
            }
            assert forall|c: char| acc.contains(c) || c == w[0] implies acc1.contains(c) by {
                if acc.contains(c) {
                    let i = choose|i: int| 0 <= i < acc.len() && acc[i] == c;
                    assert(acc1[i] == c);
                } else {
                    assert(acc1[acc.len() as int] == w[0]);
                }
            }
        }
        lemma_word_alphabet(acc1, w.drop_first());
        assert(forall|c: char| w.contains(c) <==> c == w[0] || w.drop_first().contains(c)) by {
            assert forall|c: char| w.contains(c) implies c == w[0] || w.drop_first().contains(c) by {
                let i = choose|i: int| 0 <= i < w.len() && w[i] == c;
                if i > 0 {
                    assert(w.drop_first()[i - 1] == c);
                }
            }
            assert forall|c: char| c == w[0] || w.drop_first().contains(c) implies w.contains(
                c,
            ) by {
                if c == w[0] {
                    assert(w[0] == c);
                } else {
                    let i = choose|i: int| 0 <= i < w.drop_first().len() && w.drop_first()[i] == c;
                    assert(w[i + 1] == c);
                }
            }
        }
    }
}

/// The accumulated alphabet stays duplicate-free and holds exactly the
/// starting characters and those occurring in some word.
pub proof fn lemma_alphabet_from(acc: Seq<char>, ws: Seq<Seq<char>>)
    requires
        acc.no_duplicates(),
    ensures
        alphabet_from(acc, ws).no_duplicates(),
        forall|c: char|
            alphabet_from(acc, ws).contains(c) <==> acc.contains(c) || exists|i: int|
                0 <= i < ws.len() && ws[i].contains(c),
    decreases ws.len(),
{
    if ws.len() == 0 {
    } else {
        let acc1 = word_alphabet(acc, ws[0]);
        lemma_word_alphabet(acc, ws[0]);
        lemma_alphabet_from(acc1, ws.drop_first());
        assert forall|c: char| alphabet_from(acc, ws).contains(c) implies acc.contains(c)
            || exists|i: int| 0 <= i < ws.len() && ws[i].contains(c) by {
            if !acc.contains(c) {
                if ws[0].contains(c) {
                    assert(ws[0].contains(c));
                } else {
                    let i = choose|i: int|
                        0 <= i < ws.drop_first().len() && ws.drop_first()[i].contains(c);
                    assert(ws[i + 1].contains(c));
                }
            }
        }
        assert forall|c: char|
            acc.contains(c) || exists|i: int|
                0 <= i < ws.len() && ws[i].contains(c) implies alphabet_from(acc, ws).contains(
            c,
        ) by {
            if !acc.contains(c) {
                let i = choose|i: int| 0 <= i < ws.len() && ws[i].contains(c);
                if i == 0 {
                    assert(acc1.contains(c));
                } else {
                    assert(ws.drop_first()[i - 1].contains(c));
                }
            }
        }
    }
}

/// The alphabet of a word list is duplicate-free and holds exactly the
/// characters that occur in some word.
pub proof fn lemma_alphabet(ws: Seq<Seq<char>>)
    ensures
        alphabet(ws).no_duplicates(),
        forall|c: char|
            alphabet(ws).contains(c) <==> exists|i: int| 0 <= i < ws.len() && ws[i].contains(c),
{
    lemma_alphabet_from(Seq::empty(), ws);
    assert forall|c: char|
        alphabet(ws).contains(c) <==> exists|i: int|
            0 <= i < ws.len() && ws[i].contains(c) by {
        assert(!Seq::<char>::empty().contains(c));
        assert(alphabet_from(Seq::empty(), ws).contains(c) <==> Seq::<char>::empty().contains(c)
            || exists|i: int| 0 <= i < ws.len() && ws[i].contains(c));
    }
}

/// The first index of a present character is a valid index holding it.
pub proof fn lemma_first_index_of(cs: Seq<char>, c: char)
    requires
        cs.contains(c),
    ensures
        0 <= first_index_of(cs, c) < cs.len(),
        cs[first_index_of(cs, c)] == c,
    decreases cs.len(),
{
    if cs[0] == c {
    } else {
        let i = choose|i: int| 0 <= i < cs.len() && cs[i] == c;
        assert(cs.drop_first()[i - 1] == c);
        lemma_first_index_of(cs.drop_first(), c);
    }
}

/// In a duplicate-free sequence, the first index of the character at `x` is
/// `x` itself.
pub proof fn lemma_first_index_unique(cs: Seq<char>, x: int)
    requires
        cs.no_duplicates(),
        0 <= x < cs.len(),
    ensures
        first_index_of(cs, cs[x]) == x,
    decreases cs.len(),
{
    if x == 0 {
    } else {
        assert(cs[0] != cs[x]);
        assert(cs.drop_first().no_duplicates()) by {
            assert(forall|i: int| 0 <= i < cs.drop_first().len() ==> cs.drop_first()[i] == cs[i
                + 1]);
        }
        lemma_first_index_unique(cs.drop_first(), x - 1);
        assert(cs.drop_first()[x - 1] == cs[x]);
    }
}

/// A duplicate-free sequence of characters can have at most as many entries
/// as there are distinct character values.
pub proof fn lemma_distinct_chars_bound(cs: Seq<char>)
    requires
        cs.no_duplicates(),
    ensures
        cs.len() <= 0x110000,
{
    broadcast use vstd::set::group_set_axioms;

    let f = |c: char| (c as u32) as int;
    assert(vstd::relations::injective(f)) by {
        assert forall|a: char, b: char| #[trigger] f(a) == #[trigger] f(b) implies a == b by {
            vstd::utf8::char_u32_cast(a, a as u32);
            vstd::utf8::char_u32_cast(b, b as u32);
        }
    }
    let t = cs.map_values(f);
    cs.lemma_no_duplicates_injective(f);
    t.unique_seq_to_set();
    vstd::set_lib::lemma_int_range(0, 0x110000);
    assert(t.to_set().subset_of(vstd::set_lib::set_int_range(0, 0x110000))) by {
        assert forall|x: int| t.to_set().contains(x) implies 0 <= x < 0x110000 by {
            let i = choose|i: int| 0 <= i < t.len() && t[i] == x;
            assert(t[i] == f(cs[i]));
            vstd::utf8::char_is_scalar(cs[i]);
        }
    }
    vstd::set_lib::lemma_len_subset(t.to_set(), vstd::set_lib::set_int_range(0, 0x110000));
}

/// Position of `c` in `chars`, or `None` if it is absent.
fn find_char(chars: &Vec<char>, c: char) -> (r: Option<usize>)
    ensures
        match r {
            Some(i) => i < chars@.len() && chars@[i as int] == c,
            None => !chars@.contains(c),
        },
{
    let mut i: usize = 0;
    while i < chars.len()
        invariant
            i <= chars@.len(),
            forall|k: int| 0 <= k < i ==> chars@[k] != c,
        decreases chars@.len() - i,
    {
        if chars[i] == c {
            return Some(i);
        }
        i = i + 1;
    }
    None
}

/// Maps each word to the sequence of dense indices of its characters and
/// returns, alongside, the reverse mapping: the distinct characters in order
/// of first appearance.
pub fn index_chars(words: &[String]) -> (res: (Vec<Vec<usize>>, Vec<char>))
    ensures
        res.1@ == alphabet(words_view(words@)),
        res.1@.no_duplicates(),
        res.0@.len() == words@.len(),
        forall|i: int| 0 <= i < words@.len() ==> res.0@[i]@.len() == words@[i]@.len(),
        forall|i: int, j: int|
            #![trigger res.0@[i]@[j]]
            0 <= i < words@.len() && 0 <= j < words@[i]@.len() ==> res.0@[i]@[j] < res.1@.len()
                && res.1@[res.0@[i]@[j] as int] == words@[i]@[j],
{
    let ghost wv = words_view(words@);
    let mut indexed: Vec<Vec<usize>> = Vec::new();
    let mut chars: Vec<char> = Vec::new();
    let n = words.len();
    proof {
        assert(wv.skip(0) =~= wv);
    }
    let mut i: usize = 0;
    while i < n
        invariant
            n == words@.len(),
            i <= n,
            wv == words_view(words@),
            chars@.no_duplicates(),
            alphabet(wv) == alphabet_from(chars@, wv.skip(i as int)),
            indexed@.len() == i,
            forall|p: int| 0 <= p < i ==> indexed@[p]@.len() == words@[p]@.len(),
            forall|p: int, j: int|
                #![trigger indexed@[p]@[j]]
                0 <= p < i && 0 <= j < words@[p]@.len() ==> indexed@[p]@[j] < chars@.len()
                    && chars@[indexed@[p]@[j] as int] == words@[p]@[j],
        decreases n - i,
    {
        let word = &words[i];
        let w = word.as_str();
        let wl = w.unicode_len();
        proof {
            assert(wv[i as int] == words@[i as int]@);
            assert(wv.skip(i as int)[0] == wv[i as int]);
            assert(wv.skip(i as int).drop_first() =~= wv.skip(i as int + 1));
            assert(alphabet_from(chars@, wv.skip(i as int)) == alphabet_from(
                word_alphabet(chars@, w@),
                wv.skip(i as int + 1),
            ));
            assert(w@.skip(0) =~= w@);
        }
        let mut indices: Vec<usize> = Vec::new();
        let mut j: usize = 0;
        while j < wl
            invariant
                n == words@.len(),
                i < n,
                wv == words_view(words@),
                w@ == words@[i as int]@,
                wl == w@.len(),
                j <= wl,
                chars@.no_duplicates(),
                alphabet(wv) == alphabet_from(
                    word_alphabet(chars@, w@.skip(j as int)),
                    wv.skip(i as int + 1),
                ),
                indices@.len() == j,
                forall|k: int|
                    #![trigger indices@[k]]
                    0 <= k < j ==> indices@[k] < chars@.len() && chars@[indices@[k] as int]
                        == w@[k],
                indexed@.len() == i,
                forall|p: int| 0 <= p < i ==> indexed@[p]@.len() == words@[p]@.len(),
                forall|p: int, q: int|
                    #![trigger indexed@[p]@[q]]
                    0 <= p < i && 0 <= q < words@[p]@.len() ==> indexed@[p]@[q] < chars@.len()
                        && chars@[indexed@[p]@[q] as int] == words@[p]@[q],
            decreases wl - j,
        {
            let c = w.get_char(j);
            proof {
                assert(w@.skip(j as int)[0] == w@[j as int]);
                assert(w@.skip(j as int).drop_first() =~= w@.skip(j as int + 1));
            }
            let ghost prev = chars@;
            let idx: usize;
            match find_char(&chars, c) {
                Some(k) => {
                    idx = k;
                    proof {
                        assert(chars@.contains(c)) by {
                            assert(chars@[k as int] == c);
                        }
                        assert(chars@ == insert_char(prev, c));
                    }
                },
                None => {
                    idx = chars.len();
                    chars.push(c);
                    proof {
                        assert(chars@ == insert_char(prev, c));
                        assert(forall|p: int| 0 <= p < prev.len() ==> chars@[p] == prev[p]);
                        assert(chars@[prev.len() as int] == c);
                        assert(chars@.no_duplicates());
                    }
                },
            }
            proof {
                assert(idx < chars@.len() && chars@[idx as int] == c);
                assert(word_alphabet(prev, w@.skip(j as int)) == word_alphabet(
                    chars@,
                    w@.skip(j as int + 1),
                ));
            }
            indices.push(idx);
            j = j + 1;
        }
        proof {
            assert(w@.skip(wl as int) =~= Seq::<char>::empty());
            assert(word_alphabet(chars@, Seq::<char>::empty()) == chars@);
        }
        indexed.push(indices);
        i = i + 1;
    }
    proof {
        assert(wv.skip(n as int) =~= Seq::<Seq<char>>::empty());
        assert(alphabet_from(chars@, Seq::<Seq<char>>::empty()) == chars@);
    }
    (indexed, chars)
}

/// Maps each index back to its character through the reverse mapping.
pub fn restore_chars(indices: &[usize], chars: &[char]) -> (res: Vec<char>)
    requires
        forall|k: int| 0 <= k < indices@.len() ==> indices@[k] < chars@.len(),
    ensures
        res@.len() == indices@.len(),
        forall|k: int| 0 <= k < indices@.len() ==> res@[k] == chars@[indices@[k] as int],
{
    let mut res: Vec<char> = Vec::new();
    let mut k: usize = 0;
    while k < indices.len()
        invariant
            forall|m: int| 0 <= m < indices@.len() ==> indices@[m] < chars@.len(),
            k <= indices@.len(),
            res@.len() == k,
            forall|m: int| 0 <= m < k ==> res@[m] == chars@[indices@[m] as int],
        decreases indices@.len() - k,
    {
        res.push(chars[indices[k]]);
        k = k + 1;
    }
    res
}


} // verus!
