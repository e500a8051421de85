//! Character-level text utilities: whitespace trimming, line splitting and
//! joining, all specified over `Seq<char>` views of `&str` values.
//!
//! Line splitting follows the usual rule for text files: lines are separated
//! by `'\n'`, a `'\r'` immediately before a separating `'\n'` belongs to the
//! separator, and a final line without a trailing `'\n'` is still a line.
use vstd::prelude::*;

verus! {

use vstd::string::StrSliceExecFns;

/// The Unicode `White_Space` characters: the set that trimming removes.
pub open spec fn is_ws_char(c: char) -> bool {
    ||| c == ' '
    ||| c == '\t'
    ||| c == '\n'
    ||| c == '\r'
    ||| c == '\u{b}'
    ||| c == '\u{c}'
    ||| c == '\u{85}'
    ||| c == '\u{a0}'
    ||| c == '\u{1680}'
    ||| ('\u{2000}' as u32) <= (c as u32) && (c as u32) <= ('\u{200a}' as u32)
    ||| c == '\u{2028}'
    ||| c == '\u{2029}'
    ||| c == '\u{202f}'
    ||| c == '\u{205f}'
    ||| c == '\u{3000}'
}

/// Decides `is_ws_char` on a concrete character.
pub fn is_ws(c: char) -> (r: bool)
    ensures
        r == is_ws_char(c),
{
    c == ' ' || c == '\t' || c == '\n' || c == '\r' || c == '\u{b}' || c == '\u{c}'
        || c == '\u{85}' || c == '\u{a0}' || c == '\u{1680}' || ((c as u32) >= 0x2000 && (c
        as u32) <= 0x200a) || c == '\u{2028}' || c == '\u{2029}' || c == '\u{202f}' || c
        == '\u{205f}' || c == '\u{3000}'
}

/// The sequence with its leading whitespace removed.
pub open spec fn trim_start_spec(s: Seq<char>) -> Seq<char>
    decreases s.len(),
{
    if s.len() > 0 && is_ws_char(s[0]) {
        trim_start_spec(s.drop_first())
    } else {
        s
    }
}

/// The sequence with its trailing whitespace removed.
pub open spec fn trim_end_spec(s: Seq<char>) -> Seq<char>
    decreases s.len(),
{
    if s.len() > 0 && is_ws_char(s.last()) {
        trim_end_spec(s.drop_last())
    } else {
        s
    }
}

/// The sequence with whitespace removed from both ends.
pub open spec fn trim_spec(s: Seq<char>) -> Seq<char> {
    trim_end_spec(trim_start_spec(s))
}

proof fn lemma_trim_start_at(s: Seq<char>, i: int)
    requires
        0 <= i <= s.len(),
        forall|k: int| 0 <= k < i ==> is_ws_char(s[k]),
        i < s.len() ==> !is_ws_char(s[i]),
    ensures
        trim_start_spec(s) =~= s.subrange(i, s.len() as int),
    decreases i,
{
    if i == 0 {
        if s.len() > 0 {
            assert(!is_ws_char(s[0]));
        }
        assert(trim_start_spec(s) =~= s.subrange(0, s.len() as int));
    } else {
        assert(is_ws_char(s[0]));
        let d = s.drop_first();
        assert(forall|k: int| 0 <= k < i - 1 ==> is_ws_char(#[trigger] d[k]));
        lemma_trim_start_at(d, i - 1);
        assert(d.subrange(i - 1, d.len() as int) =~= s.subrange(i, s.len() as int));
    }
}

proof fn lemma_trim_end_at(s: Seq<char>, j: int)
    requires
        0 <= j <= s.len(),
        forall|k: int| j <= k < s.len() ==> is_ws_char(s[k]),
        j > 0 ==> !is_ws_char(s[j - 1]),
    ensures
        trim_end_spec(s) =~= s.subrange(0, j),
    decreases s.len(),
{
    if j == s.len() {
        if s.len() > 0 {
            assert(!is_ws_char(s.last()));
        }
        assert(trim_end_spec(s) =~= s.subrange(0, s.len() as int));
    } else {
        assert(is_ws_char(s.last()));
        let d = s.drop_last();
        assert(forall|k: int| j <= k < d.len() ==> is_ws_char(#[trigger] d[k]));
        lemma_trim_end_at(d, j);
        assert(d.subrange(0, j) =~= s.subrange(0, j));
    }
}

/// Finds the trimmed portion of `s@` between character positions `lo` and
/// `hi`: the returned pair brackets `trim_spec` of that window.
pub fn trim_bounds(s: &str, lo: usize, hi: usize) -> (r: (usize, usize))
    requires
        lo <= hi <= s@.len(),
    ensures
        lo <= r.0 <= r.1 <= hi,
        s@.subrange(r.0 as int, r.1 as int) =~= trim_spec(s@.subrange(lo as int, hi as int)),
{
    let ghost sub = s@.subrange(lo as int, hi as int);
    let mut i: usize = lo;
    while i < hi && is_ws(s.get_char(i))
        invariant
            lo <= i <= hi <= s@.len(),
            forall|k: int| lo <= k < i ==> is_ws_char(s@[k]),
        decreases hi - i,
    {
        i = i + 1;
    }
    proof {
        assert(forall|k: int| 0 <= k < i - lo ==> is_ws_char(#[trigger] sub[k]));
        lemma_trim_start_at(sub, i - lo);
    }
    if i == hi {
        proof {
            assert(trim_start_spec(sub) =~= Seq::<char>::empty());
            assert(trim_spec(sub) =~= Seq::<char>::empty());
            assert(s@.subrange(hi as int, hi as int) =~= Seq::<char>::empty());
        }
        return (hi, hi);
    }
    let ghost mid = s@.subrange(i as int, hi as int);
    proof {
        assert(trim_start_spec(sub) =~= mid);
    }
    let mut j: usize = hi;
    while j > i && is_ws(s.get_char(j - 1))
        invariant
            lo <= i <= j <= hi <= s@.len(),
            forall|k: int| j <= k < hi ==> is_ws_char(s@[k]),
        decreases j,
    {
        j = j - 1;
    }
    proof {
        assert(forall|k: int| j - i <= k < mid.len() ==> is_ws_char(#[trigger] mid[k]));
        if j > i {
            assert(mid[j - i - 1] == s@[j - 1]);
        }
        lemma_trim_end_at(mid, j - i);
        assert(mid.subrange(0, j - i) =~= s@.subrange(i as int, j as int));
    }
    (i, j)
}

/// The position of the first `'\n'` in `s`, or `s.len()` if there is none.
pub open spec fn first_nl(s: Seq<char>) -> int
    decreases s.len(),
{
    if s.len() == 0 {
        0
    } else if s[0] == '\n' {
        0
    } else {
        1 + first_nl(s.drop_first())
    }
}

proof fn lemma_first_nl_at(s: Seq<char>, i: int)
    requires
        0 <= i <= s.len(),
        forall|k: int| 0 <= k < i ==> s[k] != '\n',
        i < s.len() ==> s[i] == '\n',
    ensures
        first_nl(s) == i,
    decreases i,
{
    if i == 0 {
    } else {
        let d = s.drop_first();
        assert(forall|k: int| 0 <= k < i - 1 ==> #[trigger] d[k] != '\n');
        lemma_first_nl_at(d, i - 1);
    }
}

/// A line with a trailing carriage return removed.
pub open spec fn strip_cr_spec(l: Seq<char>) -> Seq<char> {
    if l.len() > 0 && l.last() == '\r' {
        l.drop_last()
    } else {
        l
    }
}

/// The lines of `s`, separated at `'\n'`, each line stripped of a `'\r'`
/// that preceded the separator; a final line without a separator is kept,
/// and a trailing separator does not add an empty line.
pub open spec fn lines_spec(s: Seq<char>) -> Seq<Seq<char>>
    decreases s.len(),
{
    if s.len() == 0 {
        Seq::empty()
    } else {
        let i = first_nl(s);
        if 0 <= i < s.len() {
            seq![strip_cr_spec(s.subrange(0, i))] + lines_spec(s.subrange(i + 1, s.len() as int))
        } else {
            seq![s]
        }
    }
}

/// The concatenation of `ls` with a `'\n'` between consecutive elements.
pub open spec fn join_spec(ls: Seq<Seq<char>>) -> Seq<char>
    decreases ls.len(),
{
    if ls.len() == 0 {
        Seq::empty()
    } else if ls.len() == 1 {
        ls[0]
    } else {
        ls[0] + seq!['\n'] + join_spec(ls.drop_first())
    }
}

/// The text of `s` between the character positions of `p`.
pub open spec fn range_text(s: Seq<char>, p: (usize, usize)) -> Seq<char> {
    s.subrange(p.0 as int, p.1 as int)
}

/// The texts of `s` at each of the position pairs in `rs`.
pub open spec fn ranges_text(s: Seq<char>, rs: Seq<(usize, usize)>) -> Seq<Seq<char>> {
    rs.map_values(|p: (usize, usize)| range_text(s, p))
}

proof fn lemma_ranges_text_push(s: Seq<char>, rs: Seq<(usize, usize)>, p: (usize, usize))
    ensures
        ranges_text(s, rs.push(p)) =~= ranges_text(s, rs).push(range_text(s, p)),
{
}

/// Splits the window of `s@` between `lo` and `hi` into lines, returned as
/// character-position pairs into `s@`; the texts at those pairs are exactly
/// `lines_spec` of the window.
pub fn line_ranges(s: &str, lo: usize, hi: usize) -> (r: Vec<(usize, usize)>)
    requires
        lo <= hi <= s@.len(),
    ensures
        forall|t: int| 0 <= t < r@.len() ==> lo <= (#[trigger] r@[t]).0 <= r@[t].1 <= hi,
        ranges_text(s@, r@) =~= lines_spec(s@.subrange(lo as int, hi as int)),
{
    let mut r: Vec<(usize, usize)> = Vec::new();
    let mut pos: usize = lo;
    while pos < hi
        invariant
            lo <= pos <= hi <= s@.len(),
            forall|t: int| 0 <= t < r@.len() ==> lo <= (#[trigger] r@[t]).0 <= r@[t].1 <= hi,
            lines_spec(s@.subrange(lo as int, hi as int)) =~= ranges_text(s@, r@) + lines_spec(
                s@.subrange(pos as int, hi as int),
            ),
        decreases hi - pos,
    {
        let ghost w = s@.subrange(pos as int, hi as int);
        let mut k: usize = pos;
        while k < hi && s.get_char(k) != '\n'
            invariant
                pos <= k <= hi <= s@.len(),
                forall|t: int| pos <= t < k ==> s@[t] != '\n',
            decreases hi - k,
        {
            k = k + 1;
        }
        proof {
            assert(forall|t: int| 0 <= t < k - pos ==> #[trigger] w[t] != '\n');
            if k < hi {
                assert(w[k - pos] == '\n');
            }
            lemma_first_nl_at(w, k - pos);
        }
        let ghost old_r = r@;
        let ghost old_pos = pos;
        if k < hi {
            let end: usize = if k > pos && s.get_char(k - 1) == '\r' {
                k - 1
            } else {
                k
            };
            r.push((pos, end));
            pos = k + 1;
            proof {
                assert(w.subrange(0, k - old_pos) =~= s@.subrange(old_pos as int, k as int));
                assert(strip_cr_spec(w.subrange(0, k - old_pos)) =~= s@.subrange(
                    old_pos as int,
                    end as int,
                ));
                assert(w.subrange(k - old_pos + 1, w.len() as int) =~= s@.subrange(
                    pos as int,
                    hi as int,
                ));
                lemma_ranges_text_push(s@, old_r, (old_pos, end));
                assert(lines_spec(w) =~= seq![s@.subrange(old_pos as int, end as int)]
                    + lines_spec(s@.subrange(pos as int, hi as int)));
                assert(ranges_text(s@, old_r) + lines_spec(w) =~= ranges_text(s@, r@)
                    + lines_spec(s@.subrange(pos as int, hi as int)));
            }
        } else {
            r.push((pos, hi));
            pos = hi;
            proof {
                assert(first_nl(w) >= w.len());
                assert(lines_spec(w) =~= seq![w]);
                lemma_ranges_text_push(s@, old_r, (old_pos, hi));
                assert(ranges_text(s@, old_r) + lines_spec(w) =~= ranges_text(s@, r@)
                    + lines_spec(s@.subrange(pos as int, hi as int)));
            }
        }
    }
    proof {
        assert(lines_spec(s@.subrange(pos as int, hi as int)) =~= Seq::<Seq<char>>::empty());
        assert(ranges_text(s@, r@) + Seq::<Seq<char>>::empty() =~= ranges_text(s@, r@));
    }
    r
}

pub(crate) proof fn lemma_join_push(ls: Seq<Seq<char>>, x: Seq<char>)
    ensures
        ls.len() == 0 ==> join_spec(ls.push(x)) =~= x,
        ls.len() > 0 ==> join_spec(ls.push(x)) =~= join_spec(ls) + seq!['\n'] + x,
    decreases ls.len(),
{
    let p = ls.push(x);
    if ls.len() == 0 {
        assert(p.len() == 1);
        assert(p[0] == x);
    } else {
        assert(p.len() >= 2);
        assert(p[0] == ls[0]);
        assert(p.drop_first() =~= ls.drop_first().push(x));
        lemma_join_push(ls.drop_first(), x);
        if ls.len() == 1 {
            assert(join_spec(ls) == ls[0]);
        }
    }
}

/// A line fit to be joined into a document and recovered by line
/// splitting: it holds no newline and does not end in a carriage return.
pub open spec fn plain_line(l: Seq<char>) -> bool {
    &&& forall|k: int| 0 <= k < l.len() ==> l[k] != '\n'
    &&& l.len() > 0 ==> l.last() != '\r'
}

/// Trimming leaves text alone when neither end is whitespace.
pub proof fn lemma_trim_noop(s: Seq<char>)
    requires
        s.len() > 0,
        !is_ws_char(s[0]),
        !is_ws_char(s.last()),
    ensures
        trim_spec(s) == s,
{
    assert(trim_start_spec(s) == s);
    assert(trim_end_spec(s) == s);
}

pub(crate) proof fn lemma_join_bounds(ls: Seq<Seq<char>>)
    requires
        ls.len() > 0,
    ensures
        ls[0].len() > 0 ==> join_spec(ls).len() > 0 && join_spec(ls)[0] == ls[0][0],
        ls.last().len() > 0 ==> join_spec(ls).len() > 0 && join_spec(ls).last()
            == ls.last().last(),
    decreases ls.len(),
{
    if ls.len() == 1 {
    } else {
        let df = ls.drop_first();
        lemma_join_bounds(df);
        assert(df.last() == ls.last());
        assert(join_spec(ls) =~= ls[0] + seq!['\n'] + join_spec(df));
        if ls.last().len() > 0 {
            assert(join_spec(df).len() > 0);
            assert(join_spec(ls).last() == join_spec(df).last());
        }
    }
}

/// Splitting a newline-join of plain lines recovers exactly those lines,
/// provided the final line is not empty.
pub proof fn lemma_lines_of_join(ls: Seq<Seq<char>>)
    requires
        ls.len() > 0,
        forall|i: int| 0 <= i < ls.len() ==> plain_line(#[trigger] ls[i]),
        ls.last().len() > 0,
    ensures
        lines_spec(join_spec(ls)) =~= ls,
    decreases ls.len(),
{
    if ls.len() == 1 {
        let s = ls[0];
        assert(s.len() > 0);
        assert(forall|k: int| 0 <= k < s.len() ==> s[k] != '\n');
        lemma_first_nl_at(s, s.len() as int);
        assert(lines_spec(s) =~= seq![s]);
    } else {
        let df = ls.drop_first();
        let s = join_spec(ls);
        assert(s =~= ls[0] + seq!['\n'] + join_spec(df));
        let i = ls[0].len() as int;
        assert(forall|k: int| 0 <= k < i ==> s[k] != '\n');
        assert(s[i] == '\n');
        lemma_first_nl_at(s, i);
        assert(s.subrange(0, i) =~= ls[0]);
        assert(strip_cr_spec(ls[0]) == ls[0]);
        assert(s.subrange(i + 1, s.len() as int) =~= join_spec(df));
        assert(df.last() == ls.last());
        lemma_lines_of_join(df);
        assert(lines_spec(s) =~= seq![ls[0]] + df);
        assert(seq![ls[0]] + df =~= ls);
    }
}

/// Joins the texts at `ranges[from..to]` with `'\n'` between consecutive
/// pieces, as `join_spec` describes.
pub fn join_ranges(s: &str, ranges: &Vec<(usize, usize)>, from: usize, to: usize) -> (r: String)
    requires
        from <= to <= ranges@.len(),
        forall|t: int|
            0 <= t < ranges@.len() ==> (#[trigger] ranges@[t]).0 <= ranges@[t].1 <= s@.len(),
    ensures
        r@ =~= join_spec(ranges_text(s@, ranges@.subrange(from as int, to as int))),
{
    let mut out = String::new();
    let mut i: usize = from;
    proof {
        assert(ranges_text(s@, ranges@.subrange(from as int, from as int)) =~= Seq::<
            Seq<char>,
        >::empty());
    }
    while i < to
        invariant
            from <= i <= to <= ranges@.len(),
            forall|t: int|
                0 <= t < ranges@.len() ==> (#[trigger] ranges@[t]).0 <= ranges@[t].1 <= s@.len(),
            out@ =~= join_spec(ranges_text(s@, ranges@.subrange(from as int, i as int))),
        decreases to - i,
    {
        if i > from {
            out.append("\n");
        }
        let a = ranges[i].0;
        let b = ranges[i].1;
        let piece = s.substring_char(a, b);
        out.append(piece);
        proof {
            reveal_strlit("\n");
            let prefix = ranges_text(s@, ranges@.subrange(from as int, i as int));
            lemma_join_push(prefix, range_text(s@, ranges@[i as int]));
            assert(ranges@.subrange(from as int, i + 1).drop_last() =~= ranges@.subrange(
                from as int,
                i as int,
            ));
            assert(ranges_text(s@, ranges@.subrange(from as int, i + 1)) =~= prefix.push(
                range_text(s@, ranges@[i as int]),
            ));
        }
        i = i + 1;
    }
    out
}

} // verus!
