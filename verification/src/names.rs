//! Ordered name sets: a vector of strings kept strictly increasing in code
//! point order, so that it holds each name once and iterates in the order of
//! `String` comparison.

use vstd::prelude::*;

use crate::keys::{
    chars_lt, compare_strings, lemma_chars_lt_irreflexive, lemma_chars_lt_total,
    lemma_chars_lt_transitive, KeyOrder,
};
use crate::text::{same_text, texts};

verus! {

/// A sequence of names strictly increasing in code point order.
pub open spec fn sorted_texts(s: Seq<Seq<char>>) -> bool {
    forall|i: int, j: int| 0 <= i < j < s.len() ==> chars_lt(#[trigger] s[i], #[trigger] s[j])
}

/// The set of names held by a vector of strings.
pub open spec fn name_set(s: Seq<String>) -> Set<Seq<char>> {
    texts(s).to_set()
}

/// Membership in a name vector, by index.
pub proof fn lemma_name_set_contains(s: Seq<String>, m: Seq<char>)
    ensures
        name_set(s).contains(m) <==> exists|i: int| 0 <= i < s.len() && #[trigger] s[i]@ == m,
{
    if name_set(s).contains(m) {
        let i = choose|i: int| 0 <= i < texts(s).len() && texts(s)[i] == m;
        assert(s[i]@ == m);
    }
    if exists|i: int| 0 <= i < s.len() && #[trigger] s[i]@ == m {
        let i = choose|i: int| 0 <= i < s.len() && #[trigger] s[i]@ == m;
        assert(texts(s)[i] == m);
    }
}

/// A sorted name sequence has as many elements as its set.
pub proof fn lemma_sorted_names_len(s: Seq<String>)
    requires
        sorted_texts(texts(s)),
    ensures
        name_set(s).len() == s.len(),
        name_set(s).finite(),
{
    assert forall|i: int, j: int| 0 <= i < texts(s).len() && 0 <= j < texts(s).len() && i != j
        implies texts(s)[i] != texts(s)[j] by {
        if i < j {
            assert(chars_lt(texts(s)[i], texts(s)[j]));
            lemma_chars_lt_irreflexive(texts(s)[i]);
        } else {
            assert(chars_lt(texts(s)[j], texts(s)[i]));
            lemma_chars_lt_irreflexive(texts(s)[j]);
        }
    }
    texts(s).unique_seq_to_set();
}

/// Whether `name` is one of `names`.
pub fn contains_name(names: &[String], name: &str) -> (r: bool)
    ensures
        r == name_set(names@).contains(name@),
{
    proof {
        lemma_name_set_contains(names@, name@);
    }
    let mut i: usize = 0;
    while i < names.len()
        invariant
            i <= names.len(),
            forall|j: int| 0 <= j < i ==> names@[j]@ != name@,
        decreases names.len() - i,
    {
        if same_text(names[i].as_str(), name) {
            proof {
                lemma_name_set_contains(names@, name@);
                assert(names@[i as int]@ == name@);
            }
            return true;
        }
        i = i + 1;
    }
    false
}

/// Inserts `name` into a sorted name vector, keeping it sorted; a name
/// already present leaves the vector unchanged.
pub fn insert_name(names: &mut Vec<String>, name: &str)
    requires
        sorted_texts(texts(old(names)@)),
    ensures
        sorted_texts(texts(final(names)@)),
        name_set(final(names)@) == name_set(old(names)@).insert(name@),
        name_set(old(names)@).contains(name@) ==> final(names)@ == old(names)@,
{
    let ghost before = names@;
    let mut i: usize = 0;
    while i < names.len()
        invariant
            i <= names.len(),
            names@ == before,
            sorted_texts(texts(before)),
            forall|j: int| 0 <= j < i ==> chars_lt(#[trigger] before[j]@, name@),
        ensures
            i <= names.len(),
            names@ == before,
            forall|j: int| 0 <= j < i ==> chars_lt(#[trigger] before[j]@, name@),
            i < names.len() ==> chars_lt(name@, before[i as int]@),
        decreases names.len() - i,
    {
        match compare_strings(names[i].as_str(), name) {
            KeyOrder::Less => {},
            KeyOrder::Equal => {
                proof {
                    lemma_name_set_contains(before, name@);
                    assert(name_set(before).insert(name@) =~= name_set(before));
                }
                return;
            },
            KeyOrder::Greater => {
                break;
            },
        }
        i = i + 1;
    }
    proof {
        assert forall|j: int| i <= j < before.len() implies chars_lt(name@, #[trigger] before[j]@) by {
            if j > i {
                assert(texts(before)[i as int] == before[i as int]@);
                assert(texts(before)[j] == before[j]@);
                assert(chars_lt(before[i as int]@, before[j]@));
                lemma_chars_lt_transitive(name@, before[i as int]@, before[j]@);
            }
        }
        lemma_name_set_contains(before, name@);
        lemma_chars_lt_irreflexive(name@);
    }
    names.insert(i, String::from_str(name));
    proof {
        let after = names@;
        let nm = after[i as int];
        assert(after =~= before.take(i as int).push(nm).add(before.skip(i as int)));
        assert forall|a: int, b: int| 0 <= a < b < texts(after).len() implies chars_lt(
            #[trigger] texts(after)[a],
            #[trigger] texts(after)[b],
        ) by {
            assert(texts(after)[a] == after[a]@);
            assert(texts(after)[b] == after[b]@);
            if b < i {
                assert(after[a] == before[a] && after[b] == before[b]);
                assert(texts(before)[a] == before[a]@ && texts(before)[b] == before[b]@);
            } else if b == i {
                assert(after[a] == before[a]);
            } else if a < i {
                assert(after[a] == before[a] && after[b] == before[b - 1]);
                lemma_chars_lt_transitive(before[a]@, name@, before[b - 1]@);
            } else if a == i {
                assert(after[b] == before[b - 1]);
            } else {
                assert(after[a] == before[a - 1] && after[b] == before[b - 1]);
                assert(texts(before)[a - 1] == before[a - 1]@ && texts(before)[b - 1] == before[b - 1]@);
            }
        }
        assert forall|m: Seq<char>| name_set(after).contains(m) <==> name_set(before).insert(name@).contains(m) by {
            lemma_name_set_contains(after, m);
            lemma_name_set_contains(before, m);
            if name_set(after).contains(m) {
                let p = choose|p: int| 0 <= p < after.len() && #[trigger] after[p]@ == m;
                if p < i {
                    assert(after[p] == before[p]);
                } else if p > i {
                    assert(after[p] == before[p - 1]);
                }
            }
            if name_set(before).contains(m) {
                let p = choose|p: int| 0 <= p < before.len() && #[trigger] before[p]@ == m;
                if p < i {
                    assert(after[p] == before[p]);
                } else {
                    assert(after[p + 1] == before[p]);
                }
            }
            if m == name@ {
                assert(after[i as int]@ == name@);
            }
        }
        assert(name_set(after) =~= name_set(before).insert(name@));
    }
}

/// Two distinct names are ordered one way or the other.
pub proof fn lemma_names_total(a: Seq<char>, b: Seq<char>)
    ensures
        a == b || chars_lt(a, b) || chars_lt(b, a),
        !chars_lt(a, a),
{
    lemma_chars_lt_total(a, b);
    lemma_chars_lt_irreflexive(a);
}

} // verus!
