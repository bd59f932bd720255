//! Literal substring matching over byte sequences: the positions where a
//! search term occurs in a line, scanned left to right without overlap.

use vstd::prelude::*;

verus! {

/// The term occurs in `line` starting at byte position `i`.
pub open spec fn is_match_at(line: Seq<u8>, term: Seq<u8>, i: int) -> bool {
    0 <= i && i + term.len() <= line.len() && line.subrange(i, i + term.len()) == term
}

/// Offsets of the leftmost non-overlapping occurrences of `term` in `line`,
/// scanning from position `i` upward. An empty term yields no occurrences.
pub open spec fn offsets_from(line: Seq<u8>, term: Seq<u8>, i: int) -> Seq<int>
    decreases line.len() - i,
{
    if term.len() == 0 || i < 0 || i + term.len() > line.len() {
        Seq::empty()
    } else if is_match_at(line, term, i) {
        seq![i] + offsets_from(line, term, i + term.len() as int)
    } else {
        offsets_from(line, term, i + 1)
    }
}

/// All match offsets of `term` in `line`, in increasing order.
pub open spec fn line_matches(line: Seq<u8>, term: Seq<u8>) -> Seq<int> {
    offsets_from(line, term, 0)
}

/// A sequence of machine offsets, as mathematical integers.
pub open spec fn to_ints(s: Seq<usize>) -> Seq<int> {
    s.map_values(|x: usize| x as int)
}

/// Every reported offset is a real occurrence, lies at or after the scan
/// start, and the offsets are strictly increasing.
pub proof fn lemma_offsets_props(line: Seq<u8>, term: Seq<u8>, i: int)
    ensures
        forall|k: int|
            0 <= k < offsets_from(line, term, i).len() ==> is_match_at(
                line,
                term,
                #[trigger] offsets_from(line, term, i)[k],
            ) && offsets_from(line, term, i)[k] >= i,
        forall|a: int, b: int|
            0 <= a < b < offsets_from(line, term, i).len() ==> offsets_from(line, term, i)[a]
                < offsets_from(line, term, i)[b],
    decreases line.len() - i,
{
    if term.len() == 0 || i < 0 || i + term.len() > line.len() {
        assert(offsets_from(line, term, i).len() == 0);
    } else if is_match_at(line, term, i) {
        lemma_offsets_props(line, term, i + term.len() as int);
        let rest = offsets_from(line, term, i + term.len() as int);
        let s = offsets_from(line, term, i);
        assert(s == seq![i] + rest);
        assert forall|k: int| 0 <= k < s.len() implies is_match_at(line, term, s[k]) && s[k] >= i by {
            if k == 0 {
                assert(s[0] == i);
            } else {
                assert(s[k] == rest[k - 1]);
                assert(rest[k - 1] >= i + term.len());
            }
        }
        assert forall|a: int, b: int| 0 <= a < b < s.len() implies s[a] < s[b] by {
            assert(s[b] == rest[b - 1]);
            assert(rest[b - 1] >= i + term.len());
            if a > 0 {
                assert(s[a] == rest[a - 1]);
            } else {
                assert(s[0] == i);
            }
        }
    } else {
        lemma_offsets_props(line, term, i + 1);
        assert(offsets_from(line, term, i) == offsets_from(line, term, i + 1));
    }
}

/// A non-empty offset list starts with the leftmost occurrence: there is no
/// occurrence between the scan start and the first reported offset, and the
/// list decomposes into that offset followed by the scan of what follows it.
pub proof fn lemma_offsets_decompose(line: Seq<u8>, term: Seq<u8>, i: int)
    requires
        offsets_from(line, term, i).len() > 0,
    ensures
        is_match_at(line, term, offsets_from(line, term, i)[0]),
        offsets_from(line, term, i)[0] >= i,
        forall|j: int|
            i <= j < offsets_from(line, term, i)[0] ==> !is_match_at(line, term, j),
        offsets_from(line, term, i) == seq![offsets_from(line, term, i)[0]] + offsets_from(
            line,
            term,
            offsets_from(line, term, i)[0] + term.len() as int,
        ),
    decreases line.len() - i,
{
    if term.len() == 0 || i < 0 || i + term.len() > line.len() {
    } else if is_match_at(line, term, i) {
    } else {
        lemma_offsets_decompose(line, term, i + 1);
    }
}

/// With a non-empty term, an empty offset list means the term occurs nowhere
/// at or after the scan start.
pub proof fn lemma_offsets_absent(line: Seq<u8>, term: Seq<u8>, i: int)
    requires
        term.len() > 0,
        i >= 0,
        offsets_from(line, term, i).len() == 0,
    ensures
        forall|j: int| j >= i ==> !is_match_at(line, term, j),
    decreases line.len() - i,
{
    if i + term.len() > line.len() {
    } else if is_match_at(line, term, i) {
    } else {
        lemma_offsets_absent(line, term, i + 1);
    }
}

/// Compares `term` against the bytes of `line` starting at `i`.
pub(crate) fn eq_at(line: &Vec<u8>, term: &Vec<u8>, i: usize) -> (r: bool)
    requires
        i + term@.len() <= line@.len(),
    ensures
        r == is_match_at(line@, term@, i as int),
{
    let n = line.len();
    let tl = term.len();
    let mut j: usize = 0;
    while j < tl
        invariant
            n == line@.len(),
            tl == term@.len(),
            i + tl <= n,
            0 <= j <= tl,
            forall|k: int| 0 <= k < j ==> line@[i + k] == term@[k],
        decreases tl - j,
    {
        if line[i + j] != term[j] {
            assert(line@.subrange(i as int, i + term@.len())[j as int] == line@[i + j]);
            return false;
        }
        j += 1;
    }
    assert(line@.subrange(i as int, i + term@.len()) =~= term@);
    true
}

/// The offsets of all non-overlapping occurrences of `term` in `line`, in
/// increasing order.
pub fn find_offsets(line: &Vec<u8>, term: &Vec<u8>) -> (r: Vec<usize>)
    ensures
        to_ints(r@) == line_matches(line@, term@),
{
    let mut r: Vec<usize> = Vec::new();
    if term.len() == 0 || term.len() > line.len() {
        assert(to_ints(r@) =~= line_matches(line@, term@));
        return r;
    }
    let n = line.len();
    let tl = term.len();
    let bound = n - tl;
    let mut i: usize = 0;
    while i <= bound
        invariant
            n == line@.len(),
            tl == term@.len(),
            tl > 0,
            tl <= n,
            bound == n - tl,
            to_ints(r@) + offsets_from(line@, term@, i as int) == line_matches(line@, term@),
        decreases n - i,
    {
        if eq_at(line, term, i) {
            let ghost prev = r@;
            r.push(i);
            proof {
                assert(to_ints(r@) =~= to_ints(prev).push(i as int));
                assert(to_ints(prev) + offsets_from(line@, term@, i as int) == line_matches(
                    line@,
                    term@,
                ));
                assert(offsets_from(line@, term@, i as int) == seq![i as int] + offsets_from(
                    line@,
                    term@,
                    i + term@.len(),
                ));
                assert(to_ints(r@) + offsets_from(line@, term@, i + term@.len()) =~= to_ints(prev)
                    + offsets_from(line@, term@, i as int));
            }
            i += tl;
        } else {
            i += 1;
        }
    }
    proof {
        assert(offsets_from(line@, term@, i as int) =~= Seq::<int>::empty());
        assert(to_ints(r@) =~= line_matches(line@, term@));
    }
    r
}

} // verus!
