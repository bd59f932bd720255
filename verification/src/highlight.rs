//! Highlighting: every occurrence of a configured term in a display line is
//! bracketed by a color-start byte sequence and a reset sequence. The line is
//! rebuilt left to right, so earlier insertions never shift the offsets still
//! to be processed.

use vstd::prelude::*;
use crate::matching::{is_match_at, line_matches, offsets_from, eq_at, lemma_offsets_absent,
    lemma_offsets_decompose};
use crate::layout::sub_bytes;

verus! {

/// The rest of the line from position `i` on, with every occurrence of
/// `term` bracketed by `start` and `reset`. Occurrences are taken left to
/// right without overlap; an empty term changes nothing.
pub open spec fn hl_from(line: Seq<u8>, term: Seq<u8>, start: Seq<u8>, reset: Seq<u8>, i: int) -> Seq<u8>
    decreases line.len() - i,
{
    if term.len() == 0 || !(0 <= i < line.len()) {
        line.skip(i)
    } else if is_match_at(line, term, i) {
        start + term + reset + hl_from(line, term, start, reset, i + term.len() as int)
    } else {
        seq![line[i]] + hl_from(line, term, start, reset, i + 1)
    }
}

/// The whole line with every occurrence of `term` bracketed.
pub open spec fn highlight_one(line: Seq<u8>, term: Seq<u8>, start: Seq<u8>, reset: Seq<u8>) -> Seq<u8> {
    hl_from(line, term, start, reset, 0)
}

/// The line with every rule applied in order: each rule is a term and its
/// color-start sequence, and each pass runs over the output of the one
/// before it.
pub open spec fn render_spec(line: Seq<u8>, rules: Seq<(Seq<u8>, Seq<u8>)>, reset: Seq<u8>) -> Seq<u8>
    decreases rules.len(),
{
    if rules.len() == 0 {
        line
    } else {
        render_spec(highlight_one(line, rules[0].0, rules[0].1, reset), rules.drop_first(), reset)
    }
}

/// The views of a vector of (term, color-start) byte pairs.
pub open spec fn pairs_view(rules: Seq<(Vec<u8>, Vec<u8>)>) -> Seq<(Seq<u8>, Seq<u8>)> {
    rules.map_values(|p: (Vec<u8>, Vec<u8>)| (p.0@, p.1@))
}

/// Over a stretch with no occurrence, highlighting copies the bytes through.
proof fn lemma_hl_no_match_range(line: Seq<u8>, term: Seq<u8>, start: Seq<u8>, reset: Seq<u8>, a: int, b: int)
    requires
        term.len() > 0,
        0 <= a <= b <= line.len(),
        forall|j: int| a <= j < b ==> !is_match_at(line, term, j),
    ensures
        hl_from(line, term, start, reset, a) == line.subrange(a, b) + hl_from(
            line,
            term,
            start,
            reset,
            b,
        ),
    decreases b - a,
{
    if a == b {
        assert(line.subrange(a, b) =~= Seq::<u8>::empty());
        assert(line.subrange(a, b) + hl_from(line, term, start, reset, b) =~= hl_from(
            line,
            term,
            start,
            reset,
            a,
        ));
    } else {
        assert(!is_match_at(line, term, a));
        assert(hl_from(line, term, start, reset, a) == seq![line[a]] + hl_from(
            line,
            term,
            start,
            reset,
            a + 1,
        ));
        lemma_hl_no_match_range(line, term, start, reset, a + 1, b);
        assert(seq![line[a]] + (line.subrange(a + 1, b) + hl_from(line, term, start, reset, b))
            =~= line.subrange(a, b) + hl_from(line, term, start, reset, b));
    }
}

/// A term that occurs exactly once is bracketed exactly once: the output is
/// the line with the start sequence inserted immediately before the
/// occurrence and the reset sequence immediately after it, and removing the
/// two inserted sequences restores the original line unchanged.
pub proof fn lemma_single_occurrence(line: Seq<u8>, term: Seq<u8>, start: Seq<u8>, reset: Seq<u8>)
    requires
        term.len() > 0,
        line_matches(line, term).len() == 1,
    ensures
        is_match_at(line, term, line_matches(line, term)[0]),
        highlight_one(line, term, start, reset) == line.take(line_matches(line, term)[0]) + start
            + term + reset + line.skip(line_matches(line, term)[0] + term.len()),
        line.take(line_matches(line, term)[0]) + term + line.skip(
            line_matches(line, term)[0] + term.len(),
        ) == line,
{
    let i = line_matches(line, term)[0];
    lemma_offsets_decompose(line, term, 0);
    assert(offsets_from(line, term, i + term.len() as int).len() == 0);
    lemma_offsets_absent(line, term, i + term.len() as int);
    lemma_hl_no_match_range(line, term, start, reset, 0, i);
    assert(line.subrange(0, i) == line.take(i));
    assert(hl_from(line, term, start, reset, i) == start + term + reset + hl_from(
        line,
        term,
        start,
        reset,
        i + term.len() as int,
    ));
    lemma_hl_no_match_range(line, term, start, reset, i + term.len() as int, line.len() as int);
    assert(hl_from(line, term, start, reset, line.len() as int) =~= Seq::<u8>::empty());
    assert(line.subrange(i + term.len(), line.len() as int) + Seq::<u8>::empty() =~= line.skip(
        i + term.len(),
    ));
    assert(highlight_one(line, term, start, reset) =~= line.take(i) + start + term + reset
        + line.skip(i + term.len()));
    assert(line.subrange(i, i + term.len()) == term);
    assert(line.take(i) + term + line.skip(i + term.len()) =~= line);
}

/// Appends all bytes of `src` to `dst`.
pub fn append_bytes(dst: &mut Vec<u8>, src: &Vec<u8>)
    ensures
        final(dst)@ == old(dst)@ + src@,
{
    let m = src.len();
    let mut k: usize = 0;
    proof {
        assert(dst@ =~= old(dst)@ + src@.subrange(0, 0));
    }
    while k < m
        invariant
            m == src@.len(),
            0 <= k <= m,
            dst@ == old(dst)@ + src@.subrange(0, k as int),
        decreases m - k,
    {
        dst.push(src[k]);
        k += 1;
        proof {
            assert(dst@ =~= old(dst)@ + src@.subrange(0, k as int));
        }
    }
    proof {
        assert(src@.subrange(0, m as int) =~= src@);
    }
}

/// Brackets every occurrence of `term` in `line` with `start` and `reset`,
/// building the output line left to right.
pub fn apply_term(line: &Vec<u8>, term: &Vec<u8>, start: &Vec<u8>, reset: &Vec<u8>) -> (r: Vec<u8>)
    ensures
        r@ == highlight_one(line@, term@, start@, reset@),
{
    let n = line.len();
    let tl = term.len();
    if tl == 0 {
        let r = sub_bytes(line, 0, n);
        proof {
            assert(line@.skip(0) =~= line@);
            assert(r@ =~= highlight_one(line@, term@, start@, reset@));
        }
        return r;
    }
    let mut out: Vec<u8> = Vec::new();
    let mut i: usize = 0;
    proof {
        assert(out@ + hl_from(line@, term@, start@, reset@, 0) =~= hl_from(
            line@,
            term@,
            start@,
            reset@,
            0,
        ));
    }
    while i < n
        invariant
            n == line@.len(),
            tl == term@.len(),
            tl > 0,
            0 <= i <= n,
            out@ + hl_from(line@, term@, start@, reset@, i as int) == highlight_one(
                line@,
                term@,
                start@,
                reset@,
            ),
        decreases n - i,
    {
        let ghost gout = out@;
        if tl <= n - i && eq_at(line, term, i) {
            append_bytes(&mut out, start);
            append_bytes(&mut out, term);
            append_bytes(&mut out, reset);
            proof {
                assert(hl_from(line@, term@, start@, reset@, i as int) == start@ + term@ + reset@
                    + hl_from(line@, term@, start@, reset@, i + tl));
                assert(out@ =~= gout + (start@ + term@ + reset@));
                assert(out@ + hl_from(line@, term@, start@, reset@, i + tl) =~= gout + hl_from(
                    line@,
                    term@,
                    start@,
                    reset@,
                    i as int,
                ));
            }
            i += tl;
        } else {
            out.push(line[i]);
            proof {
                assert(!is_match_at(line@, term@, i as int));
                assert(hl_from(line@, term@, start@, reset@, i as int) == seq![line@[i as int]]
                    + hl_from(line@, term@, start@, reset@, i as int + 1));
                assert(out@ + hl_from(line@, term@, start@, reset@, i as int + 1) =~= gout
                    + hl_from(line@, term@, start@, reset@, i as int));
            }
            i += 1;
        }
    }
    proof {
        assert(hl_from(line@, term@, start@, reset@, n as int) =~= line@.skip(n as int));
        assert(line@.skip(n as int) =~= Seq::<u8>::empty());
        assert(out@ =~= out@ + hl_from(line@, term@, start@, reset@, n as int));
    }
    out
}

/// Applies every rule to the line, in the order the rules stand.
pub fn render(line: &Vec<u8>, rules: &Vec<(Vec<u8>, Vec<u8>)>, reset: &Vec<u8>) -> (r: Vec<u8>)
    ensures
        r@ == render_spec(line@, pairs_view(rules@), reset@),
{
    let m = rules.len();
    let mut cur = sub_bytes(line, 0, line.len());
    proof {
        assert(cur@ =~= line@);
        assert(pairs_view(rules@).skip(0) =~= pairs_view(rules@));
    }
    let mut k: usize = 0;
    while k < m
        invariant
            m == rules@.len(),
            0 <= k <= m,
            render_spec(cur@, pairs_view(rules@).skip(k as int), reset@) == render_spec(
                line@,
                pairs_view(rules@),
                reset@,
            ),
        decreases m - k,
    {
        let ghost pv = pairs_view(rules@);
        proof {
            assert(pv.skip(k as int).len() > 0);
            assert(pv.skip(k as int)[0] == pv[k as int]);
            assert(pv.skip(k as int).drop_first() =~= pv.skip(k as int + 1));
        }
        cur = apply_term(&cur, &rules[k].0, &rules[k].1, reset);
        k += 1;
    }
    proof {
        assert(pairs_view(rules@).skip(m as int) =~= Seq::<(Seq<u8>, Seq<u8>)>::empty());
    }
    cur
}

} // verus!
