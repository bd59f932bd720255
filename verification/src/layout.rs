//! Line layout: raw text is split at newline bytes into logical lines, and
//! each logical line wider than the viewport is split once at the viewport
//! width, giving the ordered sequence of display lines.

use vstd::prelude::*;

verus! {

/// The newline byte.
pub open spec fn nl() -> u8 {
    10u8
}

/// Prefixes the first line of `ls` with the byte `b`, creating a first line
/// if there is none.
pub open spec fn prepend_byte(b: u8, ls: Seq<Seq<u8>>) -> Seq<Seq<u8>> {
    if ls.len() == 0 {
        seq![seq![b]]
    } else {
        seq![seq![b] + ls[0]] + ls.drop_first()
    }
}

/// The logical lines of `c`: the segments between newline bytes. A trailing
/// newline terminates the last line rather than opening an empty one, so
/// empty content has no lines.
pub open spec fn logical_lines(c: Seq<u8>) -> Seq<Seq<u8>>
    decreases c.len(),
{
    if c.len() == 0 {
        Seq::empty()
    } else if c[0] == nl() {
        seq![Seq::<u8>::empty()] + logical_lines(c.drop_first())
    } else {
        prepend_byte(c[0], logical_lines(c.drop_first()))
    }
}

/// The display lines of one logical line: a line wider than `width` is split
/// once, into its first `width` bytes and the rest; a narrower one stands as
/// it is.
pub open spec fn wrap_line(l: Seq<u8>, width: int) -> Seq<Seq<u8>> {
    if l.len() > width {
        seq![l.take(width), l.skip(width)]
    } else {
        seq![l]
    }
}

/// The display lines of a sequence of logical lines, in order.
pub open spec fn wrap_all(ls: Seq<Seq<u8>>, width: int) -> Seq<Seq<u8>>
    decreases ls.len(),
{
    if ls.len() == 0 {
        Seq::empty()
    } else {
        wrap_line(ls[0], width) + wrap_all(ls.drop_first(), width)
    }
}

/// The full layout: content split into logical lines, each wrapped at the
/// viewport width.
pub open spec fn layout_spec(c: Seq<u8>, width: int) -> Seq<Seq<u8>> {
    wrap_all(logical_lines(c), width)
}

/// The views of a vector of byte lines.
pub open spec fn views_of(s: Seq<Vec<u8>>) -> Seq<Seq<u8>> {
    s.map_values(|l: Vec<u8>| l@)
}

/// Logical lines joined by single newline bytes.
pub open spec fn join_lines(ls: Seq<Seq<u8>>) -> Seq<u8>
    decreases ls.len(),
{
    if ls.len() == 0 {
        Seq::empty()
    } else if ls.len() == 1 {
        ls[0]
    } else {
        ls[0] + seq![nl()] + join_lines(ls.drop_first())
    }
}

/// No logical line contains a newline byte.
pub proof fn lemma_lines_have_no_newline(c: Seq<u8>)
    ensures
        forall|i: int, j: int|
            0 <= i < logical_lines(c).len() && 0 <= j < logical_lines(c)[i].len()
                ==> #[trigger] logical_lines(c)[i][j] != nl(),
    decreases c.len(),
{
    if c.len() == 0 {
    } else {
        lemma_lines_have_no_newline(c.drop_first());
        let rest = logical_lines(c.drop_first());
        if c[0] == nl() {
            let s = logical_lines(c);
            assert(s == seq![Seq::<u8>::empty()] + rest);
            assert forall|i: int, j: int|
                0 <= i < s.len() && 0 <= j < s[i].len() implies #[trigger] s[i][j] != nl() by {
                assert(i >= 1);
                assert(s[i] == rest[i - 1]);
            }
        } else {
            let s = logical_lines(c);
            assert(s == prepend_byte(c[0], rest));
            if rest.len() == 0 {
                assert(s == seq![seq![c[0]]]);
                assert(forall|j: int| 0 <= j < s[0].len() ==> s[0][j] == c[0]);
            } else {
                assert(s == seq![seq![c[0]] + rest[0]] + rest.drop_first());
                assert forall|i: int, j: int|
                    0 <= i < s.len() && 0 <= j < s[i].len() implies #[trigger] s[i][j] != nl() by {
                    if i == 0 {
                        if j == 0 {
                            assert(s[0][0] == c[0]);
                        } else {
                            assert(s[0][j] == rest[0][j - 1]);
                        }
                    } else {
                        assert(s[i] == rest.drop_first()[i - 1]);
                        assert(s[i] == rest[i]);
                    }
                }
            }
        }
    }
}

/// Splitting is lossless: the logical lines, joined with the newline bytes
/// that separated them, rebuild the content exactly; a final newline in the
/// content is the one case the join does not carry, since it terminates the
/// last line instead of separating two.
pub proof fn lemma_join_lines(c: Seq<u8>)
    ensures
        join_lines(logical_lines(c)) == c || join_lines(logical_lines(c)) + seq![nl()] == c,
    decreases c.len(),
{
    if c.len() == 0 {
        assert(join_lines(logical_lines(c)) =~= c);
    } else {
        lemma_join_lines(c.drop_first());
        let rest = logical_lines(c.drop_first());
        let s = logical_lines(c);
        if c[0] == nl() {
            assert(s == seq![Seq::<u8>::empty()] + rest);
            if rest.len() == 0 {
                assert(s.len() == 1 && s[0] =~= Seq::<u8>::empty());
                assert(join_lines(s) =~= Seq::<u8>::empty());
                assert(c.drop_first() =~= Seq::<u8>::empty() || join_lines(rest) + seq![nl()]
                    =~= c.drop_first());
                assert(c.drop_first() =~= Seq::<u8>::empty());
                assert(join_lines(s) + seq![nl()] =~= c);
            } else {
                assert(s.len() > 1);
                assert(s[0] =~= Seq::<u8>::empty());
                assert(s.drop_first() =~= rest);
                assert(join_lines(s) =~= seq![nl()] + join_lines(rest));
                if join_lines(rest) == c.drop_first() {
                    assert(join_lines(s) =~= c);
                } else {
                    assert(join_lines(rest) + seq![nl()] == c.drop_first());
                    assert(join_lines(s) + seq![nl()] =~= seq![nl()] + (join_lines(rest)
                        + seq![nl()]));
                    assert(seq![nl()] + c.drop_first() =~= c);
                }
            }
        } else {
            if rest.len() == 0 {
                assert(s == seq![seq![c[0]]]);
                assert(join_lines(s) == seq![c[0]]);
                // the tail has no lines, so it is empty or a bare newline
                if c.drop_first().len() == 0 {
                    assert(join_lines(s) =~= c);
                } else {
                    assert(join_lines(rest) =~= Seq::<u8>::empty());
                    assert(join_lines(rest) + seq![nl()] == c.drop_first());
                    assert(c.drop_first() =~= seq![nl()]);
                    assert(join_lines(s) + seq![nl()] =~= c);
                }
            } else {
                assert(s == seq![seq![c[0]] + rest[0]] + rest.drop_first());
                if rest.len() == 1 {
                    assert(s.len() == 1);
                    assert(join_lines(s) == seq![c[0]] + rest[0]);
                    assert(join_lines(rest) == rest[0]);
                } else {
                    assert(s.len() > 1);
                    assert(s[0] == seq![c[0]] + rest[0]);
                    assert(s.drop_first() =~= rest.drop_first());
                    assert(join_lines(s) =~= seq![c[0]] + (rest[0] + seq![nl()] + join_lines(
                        rest.drop_first(),
                    )));
                    assert(join_lines(rest) == rest[0] + seq![nl()] + join_lines(
                        rest.drop_first(),
                    ));
                    assert(join_lines(s) =~= seq![c[0]] + join_lines(rest));
                }
                if join_lines(rest) == c.drop_first() {
                    assert(join_lines(s) =~= c);
                } else {
                    assert(join_lines(rest) + seq![nl()] == c.drop_first());
                    assert(join_lines(s) + seq![nl()] =~= seq![c[0]] + (join_lines(rest)
                        + seq![nl()]));
                    assert(seq![c[0]] + c.drop_first() =~= c);
                }
            }
        }
    }
}

/// Wrapping is lossless and splits at most once: the display lines of one
/// logical line concatenate back to that line, and there are at most two of
/// them, the first never wider than the viewport.
pub proof fn lemma_wrap_line(l: Seq<u8>, width: int)
    requires
        width >= 0,
    ensures
        1 <= wrap_line(l, width).len() <= 2,
        wrap_line(l, width).len() == 2 ==> wrap_line(l, width)[0] + wrap_line(l, width)[1] == l,
        wrap_line(l, width).len() == 1 ==> wrap_line(l, width)[0] == l,
        wrap_line(l, width)[0].len() <= width || wrap_line(l, width).len() == 1,
{
    if l.len() > width {
        assert(l.take(width) + l.skip(width) =~= l);
    }
}

/// The layout preserves the content: each logical line's display segments
/// concatenate back to that line with at most one split point, and the
/// logical lines themselves rebuild the content when joined with their
/// newline separators.
pub proof fn lemma_layout_reconstructs(c: Seq<u8>, width: int)
    requires
        width > 0,
    ensures
        layout_spec(c, width) == wrap_all(logical_lines(c), width),
        forall|i: int|
            0 <= i < logical_lines(c).len() ==> {
                let segs = #[trigger] wrap_line(logical_lines(c)[i], width);
                1 <= segs.len() <= 2 && (segs.len() == 2 ==> segs[0] + segs[1]
                    == logical_lines(c)[i]) && (segs.len() == 1 ==> segs[0]
                    == logical_lines(c)[i])
            },
        join_lines(logical_lines(c)) == c || join_lines(logical_lines(c)) + seq![nl()] == c,
{
    assert forall|i: int| 0 <= i < logical_lines(c).len() implies {
        let segs = #[trigger] wrap_line(logical_lines(c)[i], width);
        1 <= segs.len() <= 2 && (segs.len() == 2 ==> segs[0] + segs[1] == logical_lines(c)[i]) && (
        segs.len() == 1 ==> segs[0] == logical_lines(c)[i])
    } by {
        lemma_wrap_line(logical_lines(c)[i], width);
    }
    lemma_join_lines(c);
}

/// The logical lines of a suffix, seen through a partially read first line:
/// `buf` holds the bytes of the current line read so far, and the remaining
/// lines follow.
pub open spec fn glue(buf: Seq<u8>, ls: Seq<Seq<u8>>) -> Seq<Seq<u8>> {
    if ls.len() == 0 {
        if buf.len() == 0 {
            Seq::empty()
        } else {
            seq![buf]
        }
    } else {
        seq![buf + ls[0]] + ls.drop_first()
    }
}

/// Reading one more non-newline byte into the partial line commutes with
/// prefixing it to the first remaining line.
proof fn lemma_glue_push(buf: Seq<u8>, b: u8, ls: Seq<Seq<u8>>)
    ensures
        glue(buf, prepend_byte(b, ls)) == glue(buf.push(b), ls),
{
    if ls.len() == 0 {
        assert(buf + seq![b] =~= buf.push(b));
        assert(glue(buf, prepend_byte(b, ls)) =~= glue(buf.push(b), ls));
    } else {
        assert(prepend_byte(b, ls) == seq![seq![b] + ls[0]] + ls.drop_first());
        assert(buf + (seq![b] + ls[0]) =~= buf.push(b) + ls[0]);
        assert((seq![seq![b] + ls[0]] + ls.drop_first()).drop_first() =~= ls.drop_first());
        assert(glue(buf, prepend_byte(b, ls)) =~= glue(buf.push(b), ls));
    }
}

/// An empty partial line adds nothing.
proof fn lemma_glue_nil(ls: Seq<Seq<u8>>)
    ensures
        glue(Seq::empty(), ls) == ls,
{
    if ls.len() == 0 {
        assert(glue(Seq::empty(), ls) =~= ls);
    } else {
        assert(Seq::<u8>::empty() + ls[0] =~= ls[0]);
        assert(glue(Seq::empty(), ls) =~= ls);
    }
}

/// Splits the content at newline bytes into its logical lines.
pub fn split_content(content: &Vec<u8>) -> (r: Vec<Vec<u8>>)
    ensures
        views_of(r@) == logical_lines(content@),
{
    let n = content.len();
    let mut out: Vec<Vec<u8>> = Vec::new();
    let mut buf: Vec<u8> = Vec::new();
    let mut j: usize = 0;
    proof {
        assert(content@.skip(0) =~= content@);
        lemma_glue_nil(logical_lines(content@));
        assert(views_of(out@) + glue(buf@, logical_lines(content@.skip(0))) =~= logical_lines(
            content@,
        ));
    }
    while j < n
        invariant
            n == content@.len(),
            0 <= j <= n,
            views_of(out@) + glue(buf@, logical_lines(content@.skip(j as int)))
                == logical_lines(content@),
        decreases n - j,
    {
        let ghost suffix = content@.skip(j as int);
        let ghost rest = logical_lines(content@.skip(j as int + 1));
        proof {
            assert(suffix.len() > 0);
            assert(suffix[0] == content@[j as int]);
            assert(suffix.drop_first() =~= content@.skip(j as int + 1));
        }
        let b = content[j];
        if b == 10u8 {
            let ghost gout = views_of(out@);
            let ghost gbuf = buf@;
            proof {
                assert(logical_lines(suffix) == seq![Seq::<u8>::empty()] + rest);
                assert(glue(gbuf, logical_lines(suffix)) =~= seq![gbuf] + rest);
                lemma_glue_nil(rest);
            }
            out.push(buf);
            buf = Vec::new();
            proof {
                assert(views_of(out@) =~= gout.push(gbuf));
                assert(views_of(out@) + glue(buf@, rest) =~= gout + (seq![gbuf] + rest));
            }
        } else {
            let ghost gbuf = buf@;
            proof {
                assert(logical_lines(suffix) == prepend_byte(content@[j as int], rest));
                lemma_glue_push(gbuf, content@[j as int], rest);
            }
            buf.push(b);
        }
        j += 1;
    }
    proof {
        assert(content@.skip(n as int) =~= Seq::<u8>::empty());
        assert(logical_lines(content@.skip(n as int)) == Seq::<Seq<u8>>::empty());
    }
    if buf.len() > 0 {
        let ghost gout = views_of(out@);
        let ghost gbuf = buf@;
        out.push(buf);
        proof {
            assert(views_of(out@) =~= gout.push(gbuf));
            assert(gout + glue(gbuf, Seq::empty()) =~= gout.push(gbuf));
        }
        return out;
    }
    proof {
        assert(views_of(out@) + glue(buf@, Seq::empty()) =~= views_of(out@));
    }
    out
}

/// Lays the content out for a viewport of the given width: logical lines,
/// each wider one split once at the width.
pub fn layout(content: &Vec<u8>, width: usize) -> (r: Vec<Vec<u8>>)
    ensures
        views_of(r@) == layout_spec(content@, width as int),
{
    let logical = split_content(content);
    let n = logical.len();
    let mut out: Vec<Vec<u8>> = Vec::new();
    let mut i: usize = 0;
    proof {
        assert(views_of(logical@).skip(0) =~= views_of(logical@));
        assert(views_of(out@) + wrap_all(views_of(logical@).skip(0), width as int) =~= wrap_all(
            views_of(logical@),
            width as int,
        ));
    }
    while i < n
        invariant
            n == logical@.len(),
            views_of(logical@) == logical_lines(content@),
            0 <= i <= n,
            views_of(out@) + wrap_all(views_of(logical@).skip(i as int), width as int)
                == wrap_all(views_of(logical@), width as int),
        decreases n - i,
    {
        let ghost lv = views_of(logical@);
        proof {
            assert(lv.skip(i as int).len() > 0);
            assert(lv.skip(i as int)[0] == lv[i as int]);
            assert(lv.skip(i as int).drop_first() =~= lv.skip(i as int + 1));
            assert(wrap_all(lv.skip(i as int), width as int) == wrap_line(lv[i as int], width as int)
                + wrap_all(lv.skip(i as int + 1), width as int));
        }
        let l = &logical[i];
        let ghost gout = views_of(out@);
        if l.len() > width {
            let head = sub_bytes(l, 0, width);
            let tail = sub_bytes(l, width, l.len());
            proof {
                assert(head@ =~= lv[i as int].take(width as int));
                assert(tail@ =~= lv[i as int].skip(width as int));
            }
            out.push(head);
            out.push(tail);
            proof {
                assert(views_of(out@) =~= gout + wrap_line(lv[i as int], width as int));
            }
        } else {
            let whole = sub_bytes(l, 0, l.len());
            proof {
                assert(whole@ =~= lv[i as int]);
            }
            out.push(whole);
            proof {
                assert(views_of(out@) =~= gout + wrap_line(lv[i as int], width as int));
            }
        }
        proof {
            assert(views_of(out@) + wrap_all(lv.skip(i as int + 1), width as int) =~= gout
                + wrap_all(lv.skip(i as int), width as int));
        }
        i += 1;
    }
    proof {
        let lv = views_of(logical@);
        assert(lv.skip(n as int) =~= Seq::<Seq<u8>>::empty());
        assert(wrap_all(lv.skip(n as int), width as int) == Seq::<Seq<u8>>::empty());
        assert(views_of(out@) =~= views_of(out@) + wrap_all(lv.skip(n as int), width as int));
    }
    out
}

/// Copies the byte range `[a, b)` of `v` into a fresh vector.
pub fn sub_bytes(v: &Vec<u8>, a: usize, b: usize) -> (r: Vec<u8>)
    requires
        a <= b <= v@.len(),
    ensures
        r@ == v@.subrange(a as int, b as int),
{
    let mut r: Vec<u8> = Vec::new();
    let mut i = a;
    while i < b
        invariant
            a <= i <= b <= v@.len(),
            r@ == v@.subrange(a as int, i as int),
        decreases b - i,
    {
        let ghost prev = r@;
        r.push(v[i]);
        i += 1;
        proof {
            assert(r@ =~= v@.subrange(a as int, i as int));
        }
    }
    r
}

} // verus!
