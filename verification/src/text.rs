//! Literal substring splitting, the text primitive behind import parsing.
//!
//! `split_by` is the mathematical model: it splits a character sequence on
//! each leftmost non-overlapping occurrence of a literal delimiter. An empty
//! delimiter matches at every character boundary, so splitting on it yields
//! an empty piece, every character on its own, and a final empty piece.
//! `split_literal` is the verified executable counterpart.

use vstd::prelude::*;

verus! {

/// Does the delimiter `d` occur in `s` starting at position `i`?
pub open spec fn match_at(s: Seq<char>, d: Seq<char>, i: int) -> bool {
    &&& 0 <= i
    &&& i + d.len() <= s.len()
    &&& s.subrange(i, i + d.len() as int) == d
}

/// Split on a non-empty delimiter, scanning left to right.
pub open spec fn split_sub(s: Seq<char>, d: Seq<char>) -> Seq<Seq<char>>
    recommends
        d.len() > 0,
    decreases s.len(),
{
    if d.len() == 0 {
        seq![s]
    } else if s.len() == 0 {
        seq![Seq::<char>::empty()]
    } else if match_at(s, d, 0) {
        seq![Seq::<char>::empty()] + split_sub(s.skip(d.len() as int), d)
    } else {
        let rest = split_sub(s.skip(1), d);
        seq![seq![s[0]] + rest[0]] + rest.skip(1)
    }
}

/// The pieces of `s` between the leftmost non-overlapping occurrences of `d`.
pub open spec fn split_by(s: Seq<char>, d: Seq<char>) -> Seq<Seq<char>> {
    if d.len() == 0 {
        seq![Seq::<char>::empty()] + s.map_values(|c: char| seq![c]) + seq![Seq::<char>::empty()]
    } else {
        split_sub(s, d)
    }
}

/// The views of a sequence of owned strings.
pub open spec fn string_views(v: Seq<String>) -> Seq<Seq<char>> {
    v.map_values(|t: String| t@)
}

pub proof fn lemma_split_sub_len(s: Seq<char>, d: Seq<char>)
    ensures
        split_sub(s, d).len() >= 1,
    decreases s.len(),
{
    if d.len() == 0 || s.len() == 0 {
    } else if match_at(s, d, 0) {
        lemma_split_sub_len(s.skip(d.len() as int), d);
    } else {
        lemma_split_sub_len(s.skip(1), d);
    }
}

/// A match of `d` within `s` at position `i` is a match of `d` at the start
/// of the suffix of `s` that begins at `i`.
proof fn lemma_match_shift(s: Seq<char>, d: Seq<char>, i: int)
    requires
        0 <= i <= s.len(),
    ensures
        match_at(s, d, i) == match_at(s.skip(i), d, 0),
{
    if i + d.len() <= s.len() {
        assert(s.skip(i).subrange(0, d.len() as int) =~= s.subrange(i, i + d.len() as int));
    }
}

/// Unfolding of `split_sub` on a suffix whose head is a delimiter match.
proof fn lemma_split_sub_at_match(s: Seq<char>, d: Seq<char>, i: int)
    requires
        d.len() > 0,
        match_at(s, d, i),
    ensures
        split_sub(s.skip(i), d) == seq![Seq::<char>::empty()] + split_sub(
            s.skip(i + d.len() as int),
            d,
        ),
{
    let t = s.skip(i);
    lemma_match_shift(s, d, i);
    assert(t.len() > 0);
    assert(t.skip(d.len() as int) =~= s.skip(i + d.len() as int));
}

/// Unfolding of `split_sub` on a suffix whose head is not a delimiter match.
proof fn lemma_split_sub_at_mismatch(s: Seq<char>, d: Seq<char>, i: int)
    requires
        d.len() > 0,
        0 <= i < s.len(),
        !match_at(s, d, i),
    ensures
        split_sub(s.skip(i), d) == ({
            let rest = split_sub(s.skip(i + 1), d);
            seq![seq![s[i]] + rest[0]] + rest.skip(1)
        }),
{
    let t = s.skip(i);
    lemma_match_shift(s, d, i);
    assert(t[0] == s[i]);
    assert(t.skip(1) =~= s.skip(i + 1));
}

/// Check whether the delimiter occurs at position `i` of `s`.
fn match_here(s: &str, n: usize, d: &str, dn: usize, i: usize) -> (b: bool)
    requires
        n == s@.len(),
        dn == d@.len(),
        i <= n,
    ensures
        b == match_at(s@, d@, i as int),
{
    if n - i < dn {
        return false;
    }
    let mut j: usize = 0;
    while j < dn
        invariant
            n == s@.len(),
            dn == d@.len(),
            i <= n,
            dn <= n - i,
            j <= dn,
            forall|k: int| 0 <= k < j ==> s@[i + k] == d@[k],
        decreases dn - j,
    {
        if s.get_char(i + j) != d.get_char(j) {
            proof {
                assert(s@.subrange(i as int, i + dn as int)[j as int] == s@[i + j]);
            }
            return false;
        }
        j += 1;
    }
    proof {
        assert(s@.subrange(i as int, i + dn as int) =~= d@);
    }
    true
}

/// Split `s` on each leftmost occurrence of the literal delimiter `d`.
pub fn split_literal(s: &str, d: &str) -> (r: Vec<String>)
    ensures
        string_views(r@) == split_by(s@, d@),
{
    let n = s.unicode_len();
    let dn = d.unicode_len();
    let mut r: Vec<String> = Vec::new();
    if dn == 0 {
        r.push(String::new());
        proof {
            assert(string_views(r@) =~= seq![Seq::<char>::empty()]);
        }
        let mut i: usize = 0;
        while i < n
            invariant
                n == s@.len(),
                i <= n,
                string_views(r@) =~= seq![Seq::<char>::empty()] + s@.take(i as int).map_values(
                    |c: char| seq![c],
                ),
            decreases n - i,
        {
            let piece = String::from_str(s.substring_char(i, i + 1));
            proof {
                assert(piece@ =~= seq![s@[i as int]]);
                assert(string_views(r@.push(piece)) =~= string_views(r@).push(piece@));
                assert(s@.take(i + 1).map_values(|c: char| seq![c]) =~= s@.take(
                    i as int,
                ).map_values(|c: char| seq![c]).push(seq![s@[i as int]]));
            }
            r.push(piece);
            i += 1;
        }
        let tail = String::new();
        proof {
            assert(s@.take(n as int) =~= s@);
            assert(string_views(r@.push(tail)) =~= string_views(r@).push(tail@));
            assert(string_views(r@).push(tail@) =~= split_by(s@, d@));
        }
        r.push(tail);
        return r;
    }
    let mut cur = String::new();
    let mut i: usize = 0;
    proof {
        lemma_split_sub_len(s@, d@);
        assert(s@.skip(0) =~= s@);
        let s0 = split_sub(s@, d@);
        assert(s0 =~= seq![s0[0]] + s0.skip(1));
        assert(string_views(r@) + seq![cur@ + s0[0]] + s0.skip(1) =~= split_sub(s@, d@));
    }
    while i < n
        invariant
            n == s@.len(),
            dn == d@.len(),
            dn > 0,
            i <= n,
            string_views(r@) + seq![cur@ + split_sub(s@.skip(i as int), d@)[0]] + split_sub(
                s@.skip(i as int),
                d@,
            ).skip(1) =~= split_sub(s@, d@),
        decreases n - i,
    {
        let ghost suffix_split = split_sub(s@.skip(i as int), d@);
        if match_here(s, n, d, dn, i) {
            proof {
                lemma_split_sub_at_match(s@, d@, i as int);
                let next_split = split_sub(s@.skip(i + dn as int), d@);
                lemma_split_sub_len(s@.skip(i + dn as int), d@);
                assert(suffix_split[0] == Seq::<char>::empty());
                assert(cur@ + suffix_split[0] =~= cur@);
                assert(suffix_split.skip(1) =~= next_split);
                assert(next_split =~= seq![next_split[0]] + next_split.skip(1));
                assert(string_views(r@.push(cur)) =~= string_views(r@).push(cur@));
                assert(string_views(r@.push(cur)) + seq![
                    Seq::<char>::empty() + next_split[0],
                ] + next_split.skip(1) =~= string_views(r@) + seq![cur@ + suffix_split[0]]
                    + suffix_split.skip(1));
            }
            r.push(cur);
            cur = String::new();
            i = i + dn;
        } else {
            let piece = s.substring_char(i, i + 1);
            proof {
                lemma_split_sub_at_mismatch(s@, d@, i as int);
                let next_split = split_sub(s@.skip(i + 1), d@);
                lemma_split_sub_len(s@.skip(i + 1), d@);
                assert(piece@ =~= seq![s@[i as int]]);
                assert(suffix_split[0] == seq![s@[i as int]] + next_split[0]);
                assert(suffix_split.skip(1) =~= next_split.skip(1));
                assert((cur@ + piece@) + next_split[0] =~= cur@ + suffix_split[0]);
            }
            cur.append(piece);
            i = i + 1;
        }
    }
    proof {
        assert(s@.skip(n as int) =~= Seq::<char>::empty());
        let end_split = split_sub(s@.skip(n as int), d@);
        assert(end_split == seq![Seq::<char>::empty()]);
        assert(end_split[0] == Seq::<char>::empty());
        assert(cur@ + end_split[0] =~= cur@);
        assert(end_split.skip(1) =~= Seq::<Seq<char>>::empty());
        assert(string_views(r@.push(cur)) =~= string_views(r@).push(cur@));
        assert(string_views(r@.push(cur)) =~= string_views(r@) + seq![cur@ + end_split[0]]
            + end_split.skip(1));
    }
    r.push(cur);
    r
}

} // verus!
