//! The text layout engine: glyph metrics as plain integer data, line
//! splitting, and the width and height measurements the watermark
//! compositor positions its text with.
//!
//! All metric values are fixed-point integers in thousandths of a pixel
//! (milli-pixels), already scaled to the font size in use, so layout is
//! exact integer arithmetic.
use vstd::prelude::*;
use vstd::string::StrSliceExecFns;

verus! {

/// Magnitude bound on a single stored metric, in milli-pixels (about a
/// thousand pixels): metrics are clamped to it on construction, which
/// keeps every accumulated width within 128-bit range.
pub const METRIC_BOUND: i64 = 1048576;

/// Scaled glyph metrics for one font at one pixel size, as plain values:
/// per-character horizontal advances, per-pair kerning adjustments, and
/// the uniform line height, all in milli-pixels.
///
/// Characters missing from `advances` measure zero wide; pairs missing
/// from `kerning` carry no adjustment. Lookups take the first matching
/// entry.
pub struct FontMetrics {
    pub advances: Vec<(u32, i64)>,
    pub kerning: Vec<(u32, u32, i64)>,
    pub line_height: i64,
}

/// The horizontal advance of `c`: the first entry for it, or zero when
/// the table has none.
pub open spec fn advance_of(advances: Seq<(u32, i64)>, c: char) -> int
    decreases advances.len(),
{
    if advances.len() == 0 {
        0
    } else if advances[0].0 == c as u32 {
        advances[0].1 as int
    } else {
        advance_of(advances.drop_first(), c)
    }
}

/// The kerning adjustment between adjacent glyphs `a` then `b`: the first
/// entry for the pair, or zero when the table has none.
pub open spec fn kern_of(kerning: Seq<(u32, u32, i64)>, a: char, b: char) -> int
    decreases kerning.len(),
{
    if kerning.len() == 0 {
        0
    } else if kerning[0].0 == a as u32 && kerning[0].1 == b as u32 {
        kerning[0].2 as int
    } else {
        kern_of(kerning.drop_first(), a, b)
    }
}

/// The width of the rest of a line, in milli-pixels, when `prev` was the
/// character before it: kerning against the previous character plus the
/// advance, summed left to right.
pub open spec fn line_width_from(m: FontMetrics, s: Seq<char>, prev: Option<char>) -> int
    decreases s.len(),
{
    if s.len() == 0 {
        0
    } else {
        (match prev {
            Option::Some(p) => kern_of(m.kerning@, p, s[0]),
            Option::None => 0,
        }) + advance_of(m.advances@, s[0]) + line_width_from(m, s.drop_first(), Option::Some(s[0]))
    }
}

/// The width of one line of text in milli-pixels.
pub open spec fn line_width(m: FontMetrics, s: Seq<char>) -> int {
    line_width_from(m, s, Option::None)
}

/// The lines of a text, split on line-break characters. A text with `n`
/// breaks has `n + 1` lines; in particular the empty text has one empty
/// line. The same rule positions lines when the watermark is drawn, so
/// measurement and drawing always agree.
pub open spec fn lines_of(s: Seq<char>) -> Seq<Seq<char>>
    decreases s.len(),
{
    if s.len() == 0 {
        seq![Seq::<char>::empty()]
    } else if s[0] == '\n' {
        seq![Seq::<char>::empty()].add(lines_of(s.drop_first()))
    } else {
        let rest = lines_of(s.drop_first());
        seq![seq![s[0]].add(rest[0])].add(rest.drop_first())
    }
}

/// Every text has at least one line.
pub proof fn lemma_lines_nonempty(s: Seq<char>)
    ensures
        lines_of(s).len() >= 1,
    decreases s.len(),
{
    if s.len() == 0 {
    } else {
        lemma_lines_nonempty(s.drop_first());
    }
}

/// The number of line-break characters in a text.
pub open spec fn newline_count(s: Seq<char>) -> int
    decreases s.len(),
{
    if s.len() == 0 {
        0
    } else {
        (if s[0] == '\n' {
            1int
        } else {
            0int
        }) + newline_count(s.drop_first())
    }
}

/// A text with `n` line breaks has exactly `n + 1` lines.
pub proof fn lemma_lines_count(s: Seq<char>)
    ensures
        lines_of(s).len() == newline_count(s) + 1,
    decreases s.len(),
{
    if s.len() == 0 {
    } else {
        lemma_lines_count(s.drop_first());
        lemma_lines_nonempty(s.drop_first());
    }
}

impl FontMetrics {
    /// Every stored metric is within `METRIC_BOUND`, advances and the
    /// line height are non-negative.
    pub open spec fn wf(&self) -> bool {
        &&& 0 <= self.line_height <= METRIC_BOUND
        &&& forall|i: int|
            0 <= i < self.advances@.len() ==> 0 <= (#[trigger] self.advances@[i]).1
                <= METRIC_BOUND
        &&& forall|i: int|
            0 <= i < self.kerning@.len() ==> -METRIC_BOUND <= (#[trigger] self.kerning@[i]).2
                <= METRIC_BOUND
    }
}

/// Clamps a raw metric into `[lo, hi]`.
pub open spec fn clamped(v: i64, lo: i64, hi: i64) -> i64 {
    if v < lo {
        lo
    } else if v > hi {
        hi
    } else {
        v
    }
}

impl FontMetrics {
    /// Builds a metrics table from raw entries, clamping each value into
    /// the supported range so that the result is always well-formed.
    pub fn new(advances: Vec<(u32, i64)>, kerning: Vec<(u32, u32, i64)>, line_height: i64) -> (m:
        FontMetrics)
        ensures
            m.wf(),
            m.line_height == clamped(line_height, 0, METRIC_BOUND),
            m.advances@.len() == advances@.len(),
            forall|i: int|
                0 <= i < advances@.len() ==> #[trigger] m.advances@[i] == (
                advances@[i].0,
                clamped(advances@[i].1, 0, METRIC_BOUND),
                ),
            m.kerning@.len() == kerning@.len(),
            forall|i: int|
                0 <= i < kerning@.len() ==> #[trigger] m.kerning@[i] == (
                kerning@[i].0,
                kerning@[i].1,
                clamped(kerning@[i].2, (-METRIC_BOUND) as i64, METRIC_BOUND),
                ),
    {
        let mut adv: Vec<(u32, i64)> = Vec::new();
        let mut i: usize = 0;
        while i < advances.len()
            invariant
                i <= advances@.len(),
                adv@.len() == i,
                forall|j: int|
                    0 <= j < i ==> #[trigger] adv@[j] == (
                    advances@[j].0,
                    clamped(advances@[j].1, 0, METRIC_BOUND),
                    ),
            decreases advances@.len() - i,
        {
            let (c, v) = advances[i];
            let cv = if v < 0 {
                0
            } else if v > METRIC_BOUND {
                METRIC_BOUND
            } else {
                v
            };
            adv.push((c, cv));
            i = i + 1;
        }
        let mut kern: Vec<(u32, u32, i64)> = Vec::new();
        let mut i: usize = 0;
        while i < kerning.len()
            invariant
                i <= kerning@.len(),
                kern@.len() == i,
                forall|j: int|
                    0 <= j < i ==> #[trigger] kern@[j] == (
                    kerning@[j].0,
                    kerning@[j].1,
                    clamped(kerning@[j].2, (-METRIC_BOUND) as i64, METRIC_BOUND),
                    ),
            decreases kerning@.len() - i,
        {
            let (a, b, v) = kerning[i];
            let cv = if v < -METRIC_BOUND {
                -METRIC_BOUND
            } else if v > METRIC_BOUND {
                METRIC_BOUND
            } else {
                v
            };
            kern.push((a, b, cv));
            i = i + 1;
        }
        let lh = if line_height < 0 {
            0
        } else if line_height > METRIC_BOUND {
            METRIC_BOUND
        } else {
            line_height
        };
        FontMetrics { advances: adv, kerning: kern, line_height: lh }
    }
}

/// A well-formed advance lies in `[0, METRIC_BOUND]`.
proof fn lemma_advance_bound(advances: Seq<(u32, i64)>, c: char)
    requires
        forall|i: int|
            0 <= i < advances.len() ==> 0 <= (#[trigger] advances[i]).1 <= METRIC_BOUND,
    ensures
        0 <= advance_of(advances, c) <= METRIC_BOUND,
    decreases advances.len(),
{
    if advances.len() == 0 {
    } else if advances[0].0 == c as u32 {
    } else {
        lemma_advance_bound(advances.drop_first(), c);
    }
}

/// A well-formed kerning adjustment lies in `[-METRIC_BOUND, METRIC_BOUND]`.
proof fn lemma_kern_bound(kerning: Seq<(u32, u32, i64)>, a: char, b: char)
    requires
        forall|i: int|
            0 <= i < kerning.len() ==> -METRIC_BOUND <= (#[trigger] kerning[i]).2 <= METRIC_BOUND,
    ensures
        -METRIC_BOUND <= kern_of(kerning, a, b) <= METRIC_BOUND,
    decreases kerning.len(),
{
    if kerning.len() == 0 {
    } else if kerning[0].0 == a as u32 && kerning[0].1 == b as u32 {
    } else {
        lemma_kern_bound(kerning.drop_first(), a, b);
    }
}

/// The collected characters of a string slice.
pub fn chars_of(s: &str) -> (r: Vec<char>)
    ensures
        r@ == s@,
{
    let n = s.unicode_len();
    let mut r: Vec<char> = Vec::new();
    let mut i: usize = 0;
    while i < n
        invariant
            i <= n,
            n == s@.len(),
            r@.len() == i,
            forall|j: int| 0 <= j < i ==> r@[j] == s@[j],
        decreases n - i,
    {
        r.push(s.get_char(i));
        i = i + 1;
    }
    proof {
        assert(r@ =~= s@);
    }
    r
}

/// Looks up the advance of `c`.
fn advance_lookup(m: &FontMetrics, c: char) -> (r: i64)
    ensures
        r as int == advance_of(m.advances@, c),
{
    let n = m.advances.len();
    proof {
        assert(m.advances@.skip(0) =~= m.advances@);
    }
    let mut i: usize = 0;
    while i < n
        invariant
            i <= n,
            n == m.advances@.len(),
            advance_of(m.advances@, c) == advance_of(m.advances@.skip(i as int), c),
        decreases n - i,
    {
        let (cc, v) = m.advances[i];
        if cc == c as u32 {
            proof {
                assert(m.advances@.skip(i as int)[0] == m.advances@[i as int]);
            }
            return v;
        }
        proof {
            assert(m.advances@.skip(i as int).drop_first() =~= m.advances@.skip(i as int + 1));
        }
        i = i + 1;
    }
    proof {
        assert(m.advances@.skip(n as int) =~= Seq::<(u32, i64)>::empty());
    }
    0
}

/// Looks up the kerning between `a` and `b`.
fn kern_lookup(m: &FontMetrics, a: char, b: char) -> (r: i64)
    ensures
        r as int == kern_of(m.kerning@, a, b),
{
    let n = m.kerning.len();
    proof {
        assert(m.kerning@.skip(0) =~= m.kerning@);
    }
    let mut i: usize = 0;
    while i < n
        invariant
            i <= n,
            n == m.kerning@.len(),
            kern_of(m.kerning@, a, b) == kern_of(m.kerning@.skip(i as int), a, b),
        decreases n - i,
    {
        let (ka, kb, v) = m.kerning[i];
        if ka == a as u32 && kb == b as u32 {
            proof {
                assert(m.kerning@.skip(i as int)[0] == m.kerning@[i as int]);
            }
            return v;
        }
        proof {
            assert(m.kerning@.skip(i as int).drop_first() =~= m.kerning@.skip(i as int + 1));
        }
        i = i + 1;
    }
    proof {
        assert(m.kerning@.skip(n as int) =~= Seq::<(u32, u32, i64)>::empty());
    }
    0
}

/// Accumulated widths stay within `2 * METRIC_BOUND` per character.
proof fn lemma_line_width_from_bound(m: FontMetrics, s: Seq<char>, prev: Option<char>)
    requires
        m.wf(),
    ensures
        -(s.len() * METRIC_BOUND) <= line_width_from(m, s, prev) <= s.len() * 2 * METRIC_BOUND,
    decreases s.len(),
{
    if s.len() == 0 {
    } else {
        match prev {
            Option::Some(p) => {
                lemma_kern_bound(m.kerning@, p, s[0]);
            },
            Option::None => {},
        }
        lemma_advance_bound(m.advances@, s[0]);
        lemma_line_width_from_bound(m, s.drop_first(), Option::Some(s[0]));
    }
}

/// A line's width in milli-pixels is bounded by its length times the
/// metric bound.
pub proof fn lemma_line_width_bound(m: FontMetrics, s: Seq<char>)
    requires
        m.wf(),
    ensures
        -(s.len() * METRIC_BOUND) <= line_width(m, s) <= s.len() * 2 * METRIC_BOUND,
{
    lemma_line_width_from_bound(m, s, Option::None);
}

/// Measures one line of text: each character adds its kerning against the
/// previous character and then its advance; the empty line measures zero
/// and looks nothing up.
pub fn measure_line(m: &FontMetrics, line: &[char]) -> (w: i128)
    requires
        m.wf(),
    ensures
        w as int == line_width(*m, line@),
        line@.len() == 0 ==> w == 0,
{
    let n = line.len();
    proof {
        assert(line@.skip(0) =~= line@);
    }
    let mut acc: i128 = 0;
    let mut i: usize = 0;
    let mut prev: Option<char> = None;
    while i < n
        invariant
            m.wf(),
            i <= n,
            n == line@.len(),
            prev == (if i == 0 {
                Option::<char>::None
            } else {
                Option::Some(line@[i - 1])
            }),
            line_width(*m, line@) == acc + line_width_from(*m, line@.skip(i as int), prev),
            -(i as int * METRIC_BOUND) <= acc <= i as int * 2 * METRIC_BOUND,
        decreases n - i,
    {
        let c = line[i];
        let k: i64 = match prev {
            Some(p) => kern_lookup(m, p, c),
            None => 0,
        };
        let a: i64 = advance_lookup(m, c);
        proof {
            match prev {
                Option::Some(p) => {
                    lemma_kern_bound(m.kerning@, p, c);
                },
                Option::None => {},
            }
            lemma_advance_bound(m.advances@, c);
            assert(line@.skip(i as int)[0] == line@[i as int]);
            assert(line@.skip(i as int).drop_first() =~= line@.skip(i as int + 1));
        }
        acc = acc + k as i128 + a as i128;
        prev = Some(c);
        i = i + 1;
    }
    proof {
        assert(line@.skip(n as int) =~= Seq::<char>::empty());
    }
    acc
}

/// A line list with its first line extended on the left by `pre`.
pub open spec fn prepend_first(lines: Seq<Seq<char>>, pre: Seq<char>) -> Seq<Seq<char>>
    recommends
        lines.len() >= 1,
{
    lines.update(0, pre.add(lines[0]))
}

/// Splits a text into its lines, by the same rule `lines_of` states.
pub fn split_lines(text: &[char]) -> (r: Vec<Vec<char>>)
    ensures
        r.deep_view() == lines_of(text@),
        r@.len() == lines_of(text@).len(),
{
    let n = text.len();
    let mut r: Vec<Vec<char>> = Vec::new();
    let mut cur: Vec<char> = Vec::new();
    let mut i: usize = 0;
    proof {
        assert(text@.skip(0) =~= text@);
        lemma_lines_nonempty(text@);
        assert(prepend_first(lines_of(text@), cur@) =~~= lines_of(text@));
        assert(r.deep_view().add(prepend_first(lines_of(text@.skip(0)), cur@)) =~~= lines_of(
            text@,
        ));
    }
    while i < n
        invariant
            i <= n,
            n == text@.len(),
            lines_of(text@) == r.deep_view().add(
                prepend_first(lines_of(text@.skip(i as int)), cur@),
            ),
        decreases n - i,
    {
        let ghost suffix = text@.skip(i as int);
        let ghost rest = lines_of(text@.skip(i as int + 1));
        proof {
            assert(suffix[0] == text@[i as int]);
            assert(suffix.drop_first() =~= text@.skip(i as int + 1));
            lemma_lines_nonempty(text@.skip(i as int + 1));
        }
        let c = text[i];
        if c == '\n' {
            proof {
                assert(lines_of(suffix) == seq![Seq::<char>::empty()].add(rest));
                assert(prepend_first(lines_of(suffix), cur@) =~~= seq![cur@].add(rest));
                assert(prepend_first(rest, Seq::<char>::empty()) =~~= rest);
            }
            let ghost old_r = r.deep_view();
            let ghost old_cur = cur@;
            r.push(cur);
            cur = Vec::new();
            proof {
                assert(r.deep_view() =~~= old_r.push(old_cur));
                assert(old_r.push(old_cur).add(rest) =~~= old_r.add(seq![old_cur].add(rest)));
                assert(r.deep_view().add(prepend_first(lines_of(text@.skip(i as int + 1)), cur@))
                    =~~= lines_of(text@));
            }
        } else {
            proof {
                assert(lines_of(suffix) == seq![seq![c].add(rest[0])].add(rest.drop_first()));
                assert(prepend_first(lines_of(suffix), cur@) =~~= seq![cur@.add(
                    seq![c].add(rest[0]),
                )].add(rest.drop_first()));
                assert(prepend_first(rest, cur@.push(c)) =~~= seq![cur@.push(c).add(rest[0])].add(
                    rest.drop_first(),
                ));
                assert(cur@.add(seq![c].add(rest[0])) =~= cur@.push(c).add(rest[0]));
            }
            cur.push(c);
            proof {
                assert(r.deep_view().add(prepend_first(lines_of(text@.skip(i as int + 1)), cur@))
                    =~~= lines_of(text@));
            }
        }
        i = i + 1;
    }
    proof {
        assert(text@.skip(n as int) =~= Seq::<char>::empty());
        assert(prepend_first(lines_of(Seq::<char>::empty()), cur@) =~~= seq![cur@]);
    }
    let ghost old_r = r.deep_view();
    let ghost last = cur@;
    r.push(cur);
    proof {
        assert(r.deep_view() =~~= old_r.push(last));
        assert(old_r.push(last) =~~= old_r.add(seq![last]));
        assert(r.deep_view() =~~= lines_of(text@));
    }
    r
}

/// The widest line's width in milli-pixels, never below zero.
pub open spec fn max_line_width(m: FontMetrics, lines: Seq<Seq<char>>) -> int
    decreases lines.len(),
{
    if lines.len() == 0 {
        0
    } else {
        let rest = max_line_width(m, lines.drop_last());
        let wl = line_width(m, lines.last());
        if wl > rest {
            wl
        } else {
            rest
        }
    }
}

/// Measures a whole text block: the widest line's width (never negative,
/// empty lines measure zero) and the total height, which is the line
/// count times the line height whatever the lines hold.
pub fn measure_block(m: &FontMetrics, text: &[char]) -> (r: (i128, i128))
    requires
        m.wf(),
    ensures
        r.0 as int == max_line_width(*m, lines_of(text@)),
        r.0 >= 0,
        r.1 as int == lines_of(text@).len() * m.line_height,
        r.1 >= 0,
{
    let lines = split_lines(text);
    let ghost all = lines_of(text@);
    let k = lines.len();
    let mut widest: i128 = 0;
    let mut i: usize = 0;
    proof {
        assert(all.take(0) =~~= Seq::<Seq<char>>::empty());
    }
    while i < k
        invariant
            m.wf(),
            i <= k,
            k == lines@.len(),
            lines.deep_view() == all,
            all.len() == k,
            widest as int == max_line_width(*m, all.take(i as int)),
            widest >= 0,
        decreases k - i,
    {
        let w = measure_line(m, lines[i].as_slice());
        proof {
            assert(lines.deep_view()[i as int] == lines@[i as int]@);
            assert(all.take(i as int + 1).drop_last() =~~= all.take(i as int));
            assert(all.take(i as int + 1).last() == all[i as int]);
        }
        if w > widest {
            widest = w;
        }
        i = i + 1;
    }
    proof {
        assert(all.take(k as int) =~~= all);
        assert(0 <= (k as int) * (m.line_height as int) <= (usize::MAX as int) * 1048576)
            by (nonlinear_arith)
            requires
                0 <= k as int <= usize::MAX as int,
                0 <= m.line_height as int <= 1048576,
        ;
    }
    let height: i128 = (k as i128) * (m.line_height as i128);
    (widest, height)
}

} // verus!
