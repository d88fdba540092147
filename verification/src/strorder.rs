//! Lexicographic order on population labels.
//!
//! Population labels are strings; the canonical population order sorts
//! them ascending. The order is specified here over sequences of
//! characters and realized by sorting through `itertools`.

use vstd::prelude::*;

verus! {

/// Strict lexicographic order on character sequences, by code point.
pub open spec fn lex_lt(a: Seq<char>, b: Seq<char>) -> bool
    decreases a.len(),
{
    if b.len() == 0 {
        false
    } else if a.len() == 0 {
        true
    } else if (a[0] as u32) < (b[0] as u32) {
        true
    } else if a[0] == b[0] {
        lex_lt(a.drop_first(), b.drop_first())
    } else {
        false
    }
}

proof fn lemma_char_cast_injective(a: char, b: char)
    requires
        a as u32 == b as u32,
    ensures
        a == b,
{
}

/// No sequence is lexicographically below itself.
pub proof fn lemma_lex_lt_irreflexive(a: Seq<char>)
    ensures
        !lex_lt(a, a),
    decreases a.len(),
{
    if a.len() > 0 {
        lemma_lex_lt_irreflexive(a.drop_first());
    }
}

/// Two sequences neither of which is below the other are equal.
pub proof fn lemma_lex_lt_connected(a: Seq<char>, b: Seq<char>)
    requires
        !lex_lt(a, b),
        !lex_lt(b, a),
    ensures
        a == b,
    decreases a.len(),
{
    if a.len() == 0 || b.len() == 0 {
        assert(a =~= b);
    } else {
        let a0 = a[0];
        let b0 = b[0];
        if (a0 as u32) < (b0 as u32) {
            assert(lex_lt(a, b));
            assert(false);
        } else if (b0 as u32) < (a0 as u32) {
            assert(lex_lt(b, a));
            assert(false);
        }
        assert((a0 as u32) == (b0 as u32));
        lemma_char_cast_injective(a0, b0);
        assert(a[0] == b[0]);
        lemma_lex_lt_connected(a.drop_first(), b.drop_first());
        assert forall|i: int| 0 <= i < a.len() implies a[i] == b[i] by {
            if i > 0 {
                assert(a[i] == a.drop_first()[i - 1]);
                assert(b[i] == b.drop_first()[i - 1]);
            }
        }
        assert(a =~= b);
    }
}

/// Lexicographic order is transitive.
pub proof fn lemma_lex_lt_transitive(a: Seq<char>, b: Seq<char>, c: Seq<char>)
    requires
        lex_lt(a, b),
        lex_lt(b, c),
    ensures
        lex_lt(a, c),
    decreases a.len(),
{
    if a.len() == 0 {
    } else {
        if a[0] == b[0] && b[0] == c[0] {
            lemma_lex_lt_transitive(a.drop_first(), b.drop_first(), c.drop_first());
        }
    }
}

/// The views of a sequence of strings.
pub open spec fn views(v: Seq<String>) -> Seq<Seq<char>> {
    v.map_values(|s: String| s@)
}

/// Relies on `itertools::Itertools::sorted`, which collects the iterator
/// into a `Vec` and calls `slice::sort`: the result is a permutation of
/// the input in ascending `Ord` order. `str`'s `Ord` is lexicographic
/// over bytes, which for UTF-8 coincides with lexicographic order over
/// code points.
#[verifier::external_body]
fn sorted_strings(v: Vec<String>) -> (r: Vec<String>)
    ensures
        views(r@).to_multiset() == views(v@).to_multiset(),
        forall|i: int, j: int|
            #![trigger lex_lt(r@[j]@, r@[i]@)]
            0 <= i < j < r@.len() ==> !lex_lt(r@[j]@, r@[i]@),
{
    itertools::Itertools::sorted(v.into_iter()).collect()
}

/// Sorts the labels ascending and removes duplicates: the result is
/// strictly sorted and holds exactly the distinct labels of the input.
#[verifier::loop_isolation(false)]
pub fn sorted_distinct(v: Vec<String>) -> (r: Vec<String>)
    ensures
        forall|i: int, j: int| 0 <= i < j < r@.len() ==> lex_lt(r@[i]@, r@[j]@),
        forall|l: Seq<char>| views(r@).contains(l) <==> views(v@).contains(l),
{
    let s = sorted_strings(v);
    proof {
        views(s@).to_multiset_ensures();
        views(v@).to_multiset_ensures();
        assert forall|l: Seq<char>| views(s@).contains(l) <==> views(v@).contains(l) by {
            assert(views(s@).contains(l) <==> views(s@).to_multiset().count(l) > 0);
            assert(views(v@).contains(l) <==> views(v@).to_multiset().count(l) > 0);
        }
    }
    let mut r: Vec<String> = Vec::new();
    let n = s.len();
    for p in 0..n
        invariant
            n == s.len(),
            forall|i: int, j: int| 0 <= i < j < r@.len() ==> lex_lt(r@[i]@, r@[j]@),
            forall|l: Seq<char>| views(r@).contains(l) ==> views(s@).contains(l),
            forall|i: int| 0 <= i < p ==> views(r@).contains(s@[i]@),
            r@.len() > 0 ==> exists|i: int|
                0 <= i < p && r@[r@.len() - 1]@ == s@[i]@,
    {
        let keep: bool = if r.len() == 0 {
            true
        } else {
            !(r[r.len() - 1] == s[p])
        };
        proof {
            if r@.len() > 0 {
                let last = r@[r@.len() - 1]@;
                // the new label is not below the last kept one, which came
                // from an earlier position of the sorted run
                assert(exists|i: int| 0 <= i < p && r@[r@.len() - 1]@ == s@[i]@);
                let i0 = choose|i: int| 0 <= i < p && r@[r@.len() - 1]@ == s@[i]@;
                assert(0 <= i0 < p && last == s@[i0]@);
                assert(!lex_lt(s@[p as int]@, s@[i0]@));
                assert(!lex_lt(s@[p as int]@, last));
                if keep {
                    // distinct and not below: strictly above
                    assert(!lex_lt(last, s@[p as int]@) ==> last == s@[p as int]@) by {
                        if !lex_lt(last, s@[p as int]@) {
                            lemma_lex_lt_connected(last, s@[p as int]@);
                        }
                    }
                    assert(lex_lt(last, s@[p as int]@));
                    // strictly above everything kept, by transitivity
                    assert forall|k: int| 0 <= k < r@.len() - 1 implies lex_lt(
                        r@[k]@,
                        s@[p as int]@,
                    ) by {
                        lemma_lex_lt_transitive(r@[k]@, last, s@[p as int]@);
                    }
                }
            }
        }
        if keep {
            let ghost old_r = r@;
            r.push(s[p].clone());
            proof {
                assert(views(r@) =~= views(old_r).push(s@[p as int]@));
                assert(views(s@).contains(s@[p as int]@)) by {
                    assert(views(s@)[p as int] == s@[p as int]@);
                }
                assert forall|i: int| 0 <= i < p + 1 implies views(r@).contains(s@[i]@) by {
                    if i < p {
                        let t = choose|t: int|
                            0 <= t < views(old_r).len() && views(old_r)[t] == s@[i]@;
                        assert(views(r@)[t] == s@[i]@);
                    } else {
                        assert(views(r@)[r@.len() - 1] == s@[p as int]@);
                    }
                }
                assert forall|l: Seq<char>|
                    views(r@).contains(l) implies views(s@).contains(l) by {
                    let t = choose|t: int| 0 <= t < views(r@).len() && views(r@)[t] == l;
                    if t < r@.len() - 1 {
                        assert(views(old_r)[t] == l);
                    } else {
                        assert(l == s@[p as int]@);
                    }
                }
            }
        } else {
            proof {
                assert(r@[r@.len() - 1]@ == s@[p as int]@);
                assert(views(r@)[r@.len() - 1] == s@[p as int]@);
                assert(views(r@).contains(s@[p as int]@));
            }
        }
    }
    proof {
        assert forall|l: Seq<char>| views(s@).contains(l) implies views(r@).contains(l) by {
            let i = choose|i: int| 0 <= i < views(s@).len() && views(s@)[i] == l;
            assert(views(r@).contains(s@[i]@));
        }
    }
    r
}

/// The weak lexicographic order: below or equal.
pub open spec fn lex_le(a: Seq<char>, b: Seq<char>) -> bool {
    lex_lt(a, b) || a == b
}

/// The weak lexicographic order is a total ordering on labels.
pub proof fn lemma_lex_le_total_ordering()
    ensures
        vstd::relations::total_ordering(|a: Seq<char>, b: Seq<char>| lex_le(a, b)),
{
    let leq = |a: Seq<char>, b: Seq<char>| lex_le(a, b);
    assert forall|a: Seq<char>| #[trigger] leq(a, a) by {}
    assert forall|a: Seq<char>, b: Seq<char>| #[trigger] leq(a, b) && #[trigger] leq(b, a)
        implies a == b by {
        if lex_lt(a, b) && lex_lt(b, a) {
            lemma_lex_lt_transitive(a, b, a);
            lemma_lex_lt_irreflexive(a);
        }
    }
    assert forall|a: Seq<char>, b: Seq<char>, c: Seq<char>|
        #[trigger] leq(a, b) && #[trigger] leq(b, c) implies leq(a, c) by {
        if lex_lt(a, b) && lex_lt(b, c) {
            lemma_lex_lt_transitive(a, b, c);
        }
    }
    assert forall|a: Seq<char>, b: Seq<char>| #[trigger] leq(a, b) || #[trigger] leq(b, a) by {
        if !lex_lt(a, b) && !lex_lt(b, a) {
            lemma_lex_lt_connected(a, b);
        }
    }
}

} // verus!
