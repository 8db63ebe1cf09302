//! Applying colours and styles to source text.
use vstd::prelude::*;
use colored::Colorize;
use crate::positions::{LineNumber, SingleLineSpan};
use crate::matching::{MatchKind, MatchKindView, MatchedPos, MatchedPosView, view_all};
use crate::syntax::{AtomKind, TokenKind};
use crate::words::{concat_words, lemma_concat_push};
use crate::positions::{decimal, decimal_text};

verus! {

/// The terminal colours that styles use.
#[derive(Clone, Copy, Debug, PartialEq, Eq, Structural)]
pub enum TextColor {
    White,
    Red,
    Green,
    BrightRed,
    BrightGreen,
}

#[derive(Clone, Copy, Debug, PartialEq, Eq, Structural)]
pub struct Style {
    pub foreground: TextColor,
    pub background: Option<TextColor>,
    pub bold: bool,
    pub dimmed: bool,
}

/// The sequence that ends a styled stretch of terminal text.
pub open spec fn reset_code() -> Seq<char> {
    seq!['\x1b', '[', '0', 'm']
}

pub open spec fn has_escape(s: Seq<char>) -> bool {
    exists|i: int| 0 <= i < s.len() && s[i] == '\x1b'
}

/// `out` shows `text`: unchanged where the terminal gets no colours, else
/// after a style sequence and before the reset sequence.
pub open spec fn paints(out: Seq<char>, text: Seq<char>) -> bool {
    out == text || exists|pre: Seq<char>| out == pre + text + reset_code()
}

/// colored's colours, carried through to its calls.
#[verifier::external_type_specification]
#[verifier::external_body]
pub struct ExColor(colored::Color);

/// Relies on colored's `Color`: the variant of the same name.
#[verifier::external_body]
fn to_terminal_color(c: TextColor) -> (r: colored::Color) {
    match c {
        TextColor::White => colored::Color::White,
        TextColor::Red => colored::Color::Red,
        TextColor::Green => colored::Color::Green,
        TextColor::BrightRed => colored::Color::BrightRed,
        TextColor::BrightGreen => colored::Color::BrightGreen,
    }
}

impl Style {
    /// Relies on colored's `Colorize` methods and `ColoredString`'s
    /// `Display`: the text comes back as it is, or between a style sequence
    /// and the reset sequence, depending on the terminal.
    #[verifier::external_body]
    fn apply(&self, s: &str) -> (r: String)
        ensures
            !has_escape(s@) ==> paints(r@, s@),
    {
        let mut res = s.color(to_terminal_color(self.foreground));
        if self.bold {
            res = res.bold();
        }
        if self.dimmed {
            res = res.dimmed();
        }
        if let Some(background) = self.background {
            res = res.on_color(to_terminal_color(background));
        }
        res.to_string()
    }
}

/// Relies on colored's `dimmed` and `ColoredString`'s `Display`, as
/// `Style::apply` does.
#[verifier::external_body]
fn dim(s: &str) -> (r: String)
    ensures
        !has_escape(s@) ==> paints(r@, s@),
{
    s.dimmed().to_string()
}

/// Relies on colored's `purple` and `ColoredString`'s `Display`, as
/// `Style::apply` does.
#[verifier::external_body]
fn mark_uncovered(s: &str) -> (r: String)
    ensures
        !has_escape(s@) ==> paints(r@, s@),
{
    s.purple().to_string()
}

/// Relies on colored's `yellow`, `bold` and `ColoredString`'s `Display`, as
/// `Style::apply` does.
#[verifier::external_body]
fn highlight_name(s: &str) -> (r: String)
    ensures
        !has_escape(s@) ==> paints(r@, s@),
{
    s.yellow().bold().to_string()
}

/// `n` spaces.
pub open spec fn spaces(n: nat) -> Seq<char> {
    Seq::new(n, |i: int| ' ')
}

/// `s` cut into pieces of `w` characters, the last one padded with spaces
/// to `w`.
pub open spec fn chunks_of(s: Seq<char>, w: nat) -> Seq<Seq<char>>
    decreases s.len(),
{
    if s.len() <= w || w == 0 {
        seq![s + spaces((w - s.len()) as nat)]
    } else {
        seq![s.take(w as int)] + chunks_of(s.skip(w as int), w)
    }
}

/// Split a string into parts of `max_len` characters, padding the last
/// part with spaces: "fooba" in parts of 3 gives "foo", "ba ".
pub fn split_string(s: &str, max_len: usize) -> (r: Vec<String>)
    requires
        max_len > 0,
    ensures
        r.deep_view() == chunks_of(s@, max_len as nat),
{
    let n = s.unicode_len();
    let mut res: Vec<String> = Vec::new();
    let mut start: usize = 0;
    proof {
        assert(s@.skip(0) =~= s@);
        assert(res.deep_view() + chunks_of(s@, max_len as nat) =~= chunks_of(s@, max_len as nat));
    }
    while n - start > max_len
        invariant
            n == s@.len(),
            start <= n,
            max_len > 0,
            res.deep_view() + chunks_of(s@.skip(start as int), max_len as nat) == chunks_of(
                s@,
                max_len as nat,
            ),
        decreases n - start,
    {
        let part = s.substring_char(start, start + max_len).to_owned();
        let ghost rest = s@.skip(start as int);
        assert(rest.take(max_len as int) =~= part@);
        assert(rest.skip(max_len as int) =~= s@.skip(start + max_len));
        let ghost before = res.deep_view();
        res.push(part);
        assert(res.deep_view() =~= before.push(part@));
        assert(before.push(part@) + chunks_of(s@.skip(start + max_len), max_len as nat)
            =~= before + chunks_of(rest, max_len as nat));
        start = start + max_len;
    }
    let mut last = s.substring_char(start, n).to_owned();
    let mut k: usize = n - start;
    while k < max_len
        invariant
            n - start <= k <= max_len,
            last@ == s@.skip(start as int) + spaces((k - (n - start)) as nat),
        decreases max_len - k,
    {
        last.append(" ");
        proof {
            reveal_strlit(" ");
        }
        assert(last@ =~= s@.skip(start as int) + spaces((k + 1 - (n - start)) as nat));
        k = k + 1;
    }
    let ghost rest = s@.skip(start as int);
    let ghost before = res.deep_view();
    res.push(last);
    assert(res.deep_view() =~= before.push(last@));
    assert(before.push(last@) =~= before + chunks_of(rest, max_len as nat));
    res
}

/// How a stretch of a line is shown.
#[derive(Clone, Copy, Debug, PartialEq, Eq, Structural)]
pub enum Paint {
    /// Covered by a span with this style.
    Styled(Style),
    /// Covered by no span.
    Dimmed,
    /// On a line that no span covers at all, which means that coverage is
    /// missing upstream.
    Uncovered,
}

/// Columns `start` up to, not including, `end` of a line, and how they are
/// shown.
#[derive(Clone, Copy, Debug, PartialEq, Eq, Structural)]
pub struct Segment {
    pub start: usize,
    pub end: usize,
    pub paint: Paint,
}

/// Every span starts no later than it ends.
pub open spec fn spans_ordered(styles: Seq<(SingleLineSpan, Style)>) -> bool {
    forall|k: int| 0 <= k < styles.len() ==> #[trigger] styles[k].0.start_col <= styles[k].0.end_col
}

/// The segments of a line of `len` characters whose spans from `i` on have
/// been handled, given the remaining `styles`: the text before each span is
/// dimmed, each span that starts within the line is styled up to the end of
/// the line, and whatever follows the last span is dimmed.
pub open spec fn line_segments_from(styles: Seq<(SingleLineSpan, Style)>, i: nat, len: nat) -> Seq<
    Segment,
>
    decreases styles.len(),
{
    if styles.len() == 0 || styles[0].0.start_col >= len {
        if i < len {
            seq![Segment { start: i as usize, end: len as usize, paint: Paint::Dimmed }]
        } else {
            seq![]
        }
    } else {
        let span = styles[0].0;
        let end = vstd::math::min(len as int, span.end_col as int);
        (if i < span.start_col {
            seq![Segment { start: i as usize, end: span.start_col, paint: Paint::Dimmed }]
        } else {
            seq![]
        }) + seq![Segment { start: span.start_col, end: end as usize, paint: Paint::Styled(styles[0].1) }]
            + line_segments_from(styles.drop_first(), span.end_col as nat, len)
    }
}

/// The segments of a line of `len` characters with the spans `styles`.
pub open spec fn line_segments_spec(styles: Seq<(SingleLineSpan, Style)>, len: nat) -> Seq<Segment> {
    if styles.len() == 0 {
        seq![Segment { start: 0, end: len as usize, paint: Paint::Uncovered }]
    } else {
        line_segments_from(styles, 0, len)
    }
}

/// Every segment lies within a text of `len` characters.
pub open spec fn segments_within(segs: Seq<Segment>, len: nat) -> bool {
    forall|k: int| 0 <= k < segs.len() ==> #[trigger] segs[k].start <= segs[k].end && segs[k].end <= len
}

pub proof fn lemma_segments_within(styles: Seq<(SingleLineSpan, Style)>, i: nat, len: nat)
    requires
        spans_ordered(styles),
        len <= usize::MAX,
    ensures
        segments_within(line_segments_from(styles, i, len), len),
    decreases styles.len(),
{
    if !(styles.len() == 0 || styles[0].0.start_col >= len) {
        let rest = styles.drop_first();
        assert forall|k: int| 0 <= k < rest.len() implies #[trigger] rest[k].0.start_col
            <= rest[k].0.end_col by {
            assert(rest[k] == styles[k + 1]);
        }
        lemma_segments_within(rest, styles[0].0.end_col as nat, len);
        assert(styles[0].0.start_col <= styles[0].0.end_col);
        let span = styles[0].0;
        let end = vstd::math::min(len as int, span.end_col as int);
        let a = if i < span.start_col {
            seq![Segment { start: i as usize, end: span.start_col, paint: Paint::Dimmed }]
        } else {
            seq![]
        };
        let b = seq![Segment { start: span.start_col, end: end as usize, paint: Paint::Styled(styles[0].1) }];
        let c = line_segments_from(rest, span.end_col as nat, len);
        let all = line_segments_from(styles, i, len);
        assert(all == a + b + c);
        assert forall|k: int| 0 <= k < all.len() implies #[trigger] all[k].start <= all[k].end && all[k].end <= len by {
            if k < a.len() {
                assert(all[k] == a[k]);
                assert(a[k].start <= a[k].end);
            } else if k < a.len() + 1 {
                assert(all[k] == b[k - a.len()]);
                assert(b[0].start <= b[0].end);
                assert(b[0].end <= len);
            } else {
                assert(all[k] == c[k - a.len() - 1]);
                assert(c[k - a.len() - 1].start <= c[k - a.len() - 1].end);
            }
        }
    }
}

/// The segments of a line of `len` characters with the spans `styles`:
/// styled where a span covers it, dimmed elsewhere, and all marked as
/// uncovered where there are no spans.
pub fn line_segments(styles: &[(SingleLineSpan, Style)], len: usize) -> (r: Vec<Segment>)
    ensures
        r@ == line_segments_spec(styles@, len as nat),
{
    let mut res: Vec<Segment> = Vec::new();
    if styles.len() == 0 {
        res.push(Segment { start: 0, end: len, paint: Paint::Uncovered });
        return res;
    }
    let mut i: usize = 0;
    let mut k: usize = 0;
    assert(styles@.skip(0) =~= styles@);
    assert(res@ + line_segments_from(styles@, 0, len as nat) =~= line_segments_from(styles@, 0, len as nat));
    while k < styles.len()
        invariant
            k <= styles@.len(),
            styles@.len() > 0,
            res@ + line_segments_from(styles@.skip(k as int), i as nat, len as nat)
                == line_segments_spec(styles@, len as nat),
        decreases styles@.len() - k,
    {
        let (span, style) = styles[k];
        let ghost rest = styles@.skip(k as int);
        assert(rest[0] == styles@[k as int]);
        // The remaining spans are beyond the end of this line, which
        // happens when the line was cut to fit the display.
        if span.start_col >= len {
            let ghost before = res@;
            if i < len {
                res.push(Segment { start: i, end: len, paint: Paint::Dimmed });
            }
            assert(res@ =~= before + line_segments_from(rest, i as nat, len as nat));
            return res;
        }
        let ghost before = res@;
        if i < span.start_col {
            res.push(Segment { start: i, end: span.start_col, paint: Paint::Dimmed });
        }
        let end = if span.end_col < len {
            span.end_col
        } else {
            len
        };
        res.push(Segment { start: span.start_col, end, paint: Paint::Styled(style) });
        assert(rest.drop_first() =~= styles@.skip(k + 1));
        assert(res@ + line_segments_from(styles@.skip(k + 1), span.end_col as nat, len as nat)
            =~= before + line_segments_from(rest, i as nat, len as nat));
        i = span.end_col;
        k = k + 1;
    }
    let ghost before = res@;
    if i < len {
        res.push(Segment { start: i, end: len, paint: Paint::Dimmed });
    }
    assert(styles@.skip(k as int) =~= Seq::<(SingleLineSpan, Style)>::empty());
    assert(res@ =~= before + line_segments_from(styles@.skip(k as int), i as nat, len as nat));
    res
}

/// The text of each segment of `segs`.
pub open spec fn segment_texts(text: Seq<char>, segs: Seq<Segment>) -> Seq<Seq<char>> {
    Seq::new(segs.len(), |k: int| text.subrange(segs[k].start as int, segs[k].end as int))
}

/// `out` shows the segments `segs` of `text`, one after the other.
pub open spec fn renders(out: Seq<char>, text: Seq<char>, segs: Seq<Segment>) -> bool {
    exists|outs: Seq<Seq<char>>|
        {
            &&& #[trigger] outs.len() == segs.len()
            &&& concat_words(outs) == out
            &&& forall|k: int|
                0 <= k < segs.len() ==> !has_escape(segment_texts(text, segs)[k]) ==> paints(
                    #[trigger] outs[k],
                    segment_texts(text, segs)[k],
                )
        }
}

/// Show the segments `segs` of `text`, one after the other.
pub fn render_segments(text: &str, segs: &[Segment]) -> (r: String)
    requires
        segments_within(segs@, text@.len()),
    ensures
        renders(r@, text@, segs@),
{
    let mut res = String::new();
    let ghost mut outs: Seq<Seq<char>> = seq![];
    let mut k: usize = 0;
    while k < segs.len()
        invariant
            segments_within(segs@, text@.len()),
            k <= segs@.len(),
            outs.len() == k,
            concat_words(outs) == res@,
            forall|j: int|
                0 <= j < k ==> !has_escape(segment_texts(text@, segs@)[j]) ==> paints(
                    #[trigger] outs[j],
                    segment_texts(text@, segs@)[j],
                ),
        decreases segs@.len() - k,
    {
        let seg = segs[k];
        let part = text.substring_char(seg.start, seg.end);
        let out = match seg.paint {
            Paint::Styled(style) => style.apply(part),
            Paint::Dimmed => dim(part),
            Paint::Uncovered => mark_uncovered(part),
        };
        proof {
            lemma_concat_push(outs, out@);
            outs = outs.push(out@);
        }
        res.append(out.as_str());
        k = k + 1;
    }
    assert(outs.len() == segs@.len());
    res
}

/// Return a copy of `line` with styles applied to all the spans specified,
/// and any parts of the line that have no spans dimmed.
pub fn apply_line(line: &str, styles: &[(SingleLineSpan, Style)]) -> (r: String)
    requires
        spans_ordered(styles@),
    ensures
        renders(r@, line@, line_segments_spec(styles@, line@.len())),
{
    let segs = line_segments(styles, line.unicode_len());
    proof {
        lemma_segments_within(styles@, 0, line@.len());
    }
    render_segments(line, segs.as_slice())
}

/// The number of columns that segments cover, counted with repeats.
pub open spec fn seg_total(segs: Seq<Segment>) -> int
    decreases segs.len(),
{
    if segs.len() == 0 {
        0
    } else {
        (segs[0].end - segs[0].start) + seg_total(segs.drop_first())
    }
}

pub proof fn lemma_seg_total_append(a: Seq<Segment>, b: Seq<Segment>)
    ensures
        seg_total(a + b) == seg_total(a) + seg_total(b),
    decreases a.len(),
{
    if a.len() > 0 {
        lemma_seg_total_append(a.drop_first(), b);
        assert((a + b).drop_first() =~= a.drop_first() + b);
    } else {
        assert(a + b =~= b);
    }
}

/// The spans come in order along the line and do not overlap.
pub open spec fn spans_disjoint(styles: Seq<(SingleLineSpan, Style)>) -> bool {
    &&& spans_ordered(styles)
    &&& forall|k: int| 0 <= k < styles.len() - 1 ==> #[trigger] styles[k].0.end_col <= styles[k + 1].0.start_col
}

proof fn lemma_segments_cover(styles: Seq<(SingleLineSpan, Style)>, i: nat, len: nat)
    requires
        spans_disjoint(styles),
        len <= usize::MAX,
        styles.len() > 0 ==> i <= styles[0].0.start_col,
    ensures
        seg_total(line_segments_from(styles, i, len)) == (if i < len { len - i } else { 0 }),
    decreases styles.len(),
{
    if styles.len() == 0 || styles[0].0.start_col >= len {
        let s = line_segments_from(styles, i, len);
        if i < len {
            assert(s.drop_first() =~= Seq::<Segment>::empty());
            assert(seg_total(Seq::<Segment>::empty()) == 0);
            assert(seg_total(s) == (s[0].end - s[0].start) + seg_total(s.drop_first()));
        } else {
            assert(s =~= Seq::<Segment>::empty());
        }
    } else {
        let rest = styles.drop_first();
        assert forall|k: int| 0 <= k < rest.len() implies #[trigger] rest[k].0.start_col
            <= rest[k].0.end_col by {
            assert(rest[k] == styles[k + 1]);
        }
        assert forall|k: int| 0 <= k < rest.len() - 1 implies #[trigger] rest[k].0.end_col
            <= rest[k + 1].0.start_col by {
            assert(rest[k] == styles[k + 1]);
            assert(rest[k + 1] == styles[k + 2]);
        }
        if rest.len() > 0 {
            assert(rest[0] == styles[1]);
            assert(styles[0].0.end_col <= styles[1].0.start_col);
        }
        assert(styles[0].0.start_col <= styles[0].0.end_col);
        lemma_segments_cover(rest, styles[0].0.end_col as nat, len);
        let span = styles[0].0;
        let end = vstd::math::min(len as int, span.end_col as int);
        let a = if i < span.start_col {
            seq![Segment { start: i as usize, end: span.start_col, paint: Paint::Dimmed }]
        } else {
            seq![]
        };
        let b = seq![Segment { start: span.start_col, end: end as usize, paint: Paint::Styled(styles[0].1) }];
        let c = line_segments_from(rest, span.end_col as nat, len);
        lemma_seg_total_append(a, b);
        lemma_seg_total_append(a + b, c);
        assert(seg_total(Seq::<Segment>::empty()) == 0);
        assert(b.drop_first() =~= Seq::<Segment>::empty());
        assert(seg_total(b) == end - span.start_col);
        if i < span.start_col {
            assert(a.drop_first() =~= Seq::<Segment>::empty());
            assert(seg_total(a) == span.start_col - i);
        } else {
            assert(seg_total(a) == 0);
        }
        assert(line_segments_from(styles, i, len) == a + b + c);
    }
}

/// Rendering covers a line exactly: when the spans come in order and do
/// not overlap, the segments of a line add up to its length, with no
/// column left out or shown twice.
pub proof fn lemma_rendering_covers_line(styles: Seq<(SingleLineSpan, Style)>, len: nat)
    requires
        spans_disjoint(styles),
        len <= usize::MAX,
    ensures
        seg_total(line_segments_spec(styles, len)) == len,
{
    if styles.len() == 0 {
        let s = line_segments_spec(styles, len);
        assert(s.drop_first() =~= Seq::<Segment>::empty());
        assert(seg_total(Seq::<Segment>::empty()) == 0);
        assert(seg_total(s) == (s[0].end - s[0].start) + seg_total(s.drop_first()));
    } else {
        lemma_segments_cover(styles, 0, len);
    }
}

/// The spans that reach into columns `lo` up to `hi`, cut to that range
/// and counted from `lo`.
pub open spec fn clip_styles(styles: Seq<(SingleLineSpan, Style)>, lo: nat, hi: nat) -> Seq<
    (SingleLineSpan, Style),
>
    decreases styles.len(),
{
    if styles.len() == 0 {
        seq![]
    } else {
        let (s, st) = styles.last();
        clip_styles(styles.drop_last(), lo, hi) + if s.end_col > lo && s.start_col < hi {
            seq![
                (
                    SingleLineSpan {
                        line: s.line,
                        start_col: (vstd::math::max(s.start_col as int, lo as int) - lo) as usize,
                        end_col: (vstd::math::min(s.end_col as int, hi as int) - lo) as usize,
                    },
                    st,
                ),
            ]
        } else {
            seq![]
        }
    }
}

/// The spans that reach into columns `lo` up to `hi`, cut to that range
/// and counted from `lo`.
pub fn clip_to_range(styles: &[(SingleLineSpan, Style)], lo: usize, hi: usize) -> (r: Vec<
    (SingleLineSpan, Style),
>)
    requires
        lo <= hi,
        spans_ordered(styles@),
    ensures
        r@ == clip_styles(styles@, lo as nat, hi as nat),
        spans_ordered(r@),
{
    let mut res: Vec<(SingleLineSpan, Style)> = Vec::new();
    let mut k: usize = 0;
    while k < styles.len()
        invariant
            lo <= hi,
            spans_ordered(styles@),
            k <= styles@.len(),
            res@ == clip_styles(styles@.take(k as int), lo as nat, hi as nat),
            spans_ordered(res@),
        decreases styles@.len() - k,
    {
        let (s, st) = styles[k];
        assert(styles@.take(k + 1).drop_last() =~= styles@.take(k as int));
        assert(styles@[k as int].0.start_col <= styles@[k as int].0.end_col);
        let ghost before = res@;
        if s.end_col > lo && s.start_col < hi {
            let start = if s.start_col > lo {
                s.start_col - lo
            } else {
                0
            };
            let end = if s.end_col < hi {
                s.end_col - lo
            } else {
                hi - lo
            };
            res.push((SingleLineSpan { line: s.line, start_col: start, end_col: end }, st));
            assert(res@ =~= clip_styles(styles@.take(k + 1), lo as nat, hi as nat));
        } else {
            assert(res@ =~= clip_styles(styles@.take(k + 1), lo as nat, hi as nat));
        }
        k = k + 1;
    }
    assert(styles@.take(k as int) =~= styles@);
    res
}

/// The segments of the part of a wrapped line that starts at column `lo`
/// and is `len` columns wide.
pub open spec fn part_segments(styles: Seq<(SingleLineSpan, Style)>, lo: nat, len: nat) -> Seq<
    Segment,
> {
    if styles.len() == 0 {
        seq![Segment { start: 0, end: len as usize, paint: Paint::Uncovered }]
    } else {
        line_segments_from(clip_styles(styles, lo, lo + len), 0, len)
    }
}

pub proof fn lemma_chunks(s: Seq<char>, w: nat)
    requires
        w > 0,
    ensures
        forall|k: int| 0 <= k < chunks_of(s, w).len() ==> (#[trigger] chunks_of(s, w)[k]).len() == w,
        chunks_of(s, w).len() >= 1,
        (chunks_of(s, w).len() - 1) * w <= s.len(),
    decreases s.len(),
{
    if s.len() > w {
        lemma_chunks(s.skip(w as int), w);
        let c = chunks_of(s, w);
        assert forall|k: int| 0 <= k < c.len() implies (#[trigger] c[k]).len() == w by {
            if k > 0 {
                assert(c[k] == chunks_of(s.skip(w as int), w)[k - 1]);
            }
        }
        let m = chunks_of(s.skip(w as int), w).len();
        assert((m - 1) * w <= s.len() - w);
        assert(c.len() == m + 1);
        assert((c.len() - 1) * w == (m - 1) * w + w) by (nonlinear_arith)
            requires c.len() == m + 1;
        assert((c.len() - 1) * w <= s.len());
    } else {
        let c = chunks_of(s, w);
        assert(c.len() == 1);
        assert((c.len() - 1) * w == 0) by (nonlinear_arith)
            requires c.len() == 1;
    }
}

/// Split `line` into parts of `max_len` columns, padding the last part
/// with spaces, and apply the styles to each part as `apply_line` does,
/// with each span cut to the part it reaches into.
pub fn split_and_apply(line: &str, max_len: usize, styles: &[(SingleLineSpan, Style)]) -> (r: Vec<
    String,
>)
    requires
        max_len > 0,
        line@.len() + max_len <= usize::MAX,
        spans_ordered(styles@),
    ensures
        r@.len() == chunks_of(line@, max_len as nat).len(),
        forall|k: int|
            0 <= k < r@.len() ==> renders(
                #[trigger] r@[k]@,
                chunks_of(line@, max_len as nat)[k],
                part_segments(styles@, (k * max_len) as nat, max_len as nat),
            ),
{
    let parts = split_string(line, max_len);
    proof {
        lemma_chunks(line@, max_len as nat);
    }
    let ghost chunks = chunks_of(line@, max_len as nat);
    let mut styled_parts: Vec<String> = Vec::new();
    let mut prev_length: usize = 0;
    let mut k: usize = 0;
    while k < parts.len()
        invariant
            parts.deep_view() == chunks,
            chunks == chunks_of(line@, max_len as nat),
            forall|j: int| 0 <= j < chunks.len() ==> (#[trigger] chunks[j]).len() == max_len,
            (chunks.len() - 1) * max_len <= line@.len(),
            line@.len() + max_len <= usize::MAX,
            max_len > 0,
            spans_ordered(styles@),
            k <= parts@.len(),
            prev_length == k * max_len,
            styled_parts@.len() == k,
            forall|j: int|
                0 <= j < k ==> renders(
                    #[trigger] styled_parts@[j]@,
                    chunks[j],
                    part_segments(styles@, (j * max_len) as nat, max_len as nat),
                ),
        decreases parts@.len() - k,
    {
        let part = &parts[k];
        assert(part@ == chunks[k as int]);
        assert(k * max_len <= (chunks.len() - 1) * max_len) by (nonlinear_arith)
            requires k <= chunks.len() - 1;
        let segs = if styles.len() == 0 {
            line_segments(styles, max_len)
        } else {
            let clipped = clip_to_range(styles, prev_length, prev_length + max_len);
            proof {
                lemma_segments_within(clipped@, 0, max_len as nat);
            }
            if clipped.len() == 0 {
                // No span reaches into this part: it is all dimmed.
                let mut segs: Vec<Segment> = Vec::new();
                segs.push(Segment { start: 0, end: max_len, paint: Paint::Dimmed });
                assert(segs@ =~= line_segments_from(clipped@, 0, max_len as nat));
                segs
            } else {
                line_segments(clipped.as_slice(), max_len)
            }
        };
        assert(segments_within(segs@, max_len as nat));
        let out = render_segments(part.as_str(), segs.as_slice());
        styled_parts.push(out);
        assert((k + 1) * max_len == k * max_len + max_len) by (nonlinear_arith);
        prev_length = prev_length + max_len;
        k = k + 1;
    }
    styled_parts
}

/// The styles of the spans on line `n`, in order.
pub open spec fn line_styles(styles: Seq<(SingleLineSpan, Style)>, n: nat) -> Seq<
    (SingleLineSpan, Style),
>
    decreases styles.len(),
{
    if styles.len() == 0 {
        seq![]
    } else {
        line_styles(styles.drop_last(), n) + if styles.last().0.line.0 == n {
            seq![styles.last()]
        } else {
            seq![]
        }
    }
}

/// The styles of the spans on line `n`, in order.
pub fn group_by_line(styles: &[(SingleLineSpan, Style)], n: LineNumber) -> (r: Vec<
    (SingleLineSpan, Style),
>)
    requires
        spans_ordered(styles@),
    ensures
        r@ == line_styles(styles@, n.0 as nat),
        spans_ordered(r@),
{
    let mut res: Vec<(SingleLineSpan, Style)> = Vec::new();
    let mut k: usize = 0;
    while k < styles.len()
        invariant
            spans_ordered(styles@),
            k <= styles@.len(),
            res@ == line_styles(styles@.take(k as int), n.0 as nat),
            spans_ordered(res@),
        decreases styles@.len() - k,
    {
        assert(styles@.take(k + 1).drop_last() =~= styles@.take(k as int));
        let item = styles[k];
        assert(item.0.start_col <= item.0.end_col);
        if item.0.line.0 == n.0 {
            res.push(item);
        }
        assert(res@ =~= line_styles(styles@.take(k + 1), n.0 as nat));
        k = k + 1;
    }
    assert(styles@.take(k as int) =~= styles@);
    res
}

/// The pieces of `s` between newlines; there is one more piece than there
/// are newlines.
pub open spec fn line_pieces(s: Seq<char>) -> Seq<Seq<char>>
    decreases s.len(),
{
    if s.len() == 0 {
        seq![seq![]]
    } else {
        let p = line_pieces(s.drop_last());
        if s.last() == '\n' {
            p.push(seq![])
        } else {
            p.update(p.len() - 1, p.last().push(s.last()))
        }
    }
}

pub open spec fn strip_cr(l: Seq<char>) -> Seq<char> {
    if l.len() > 0 && l.last() == '\r' {
        l.drop_last()
    } else {
        l
    }
}

/// The lines of `s`: split at each newline, a carriage return before a
/// newline dropped, and no empty line after a final newline.
pub open spec fn text_lines(s: Seq<char>) -> Seq<Seq<char>> {
    let p = line_pieces(s);
    let body = p.drop_last().map_values(|l: Seq<char>| strip_cr(l));
    if p.last().len() == 0 {
        body
    } else {
        body.push(p.last())
    }
}

proof fn lemma_line_pieces_len(s: Seq<char>)
    ensures
        line_pieces(s).len() >= 1,
    decreases s.len(),
{
    if s.len() > 0 {
        lemma_line_pieces_len(s.drop_last());
    }
}

/// The lines of `s`, as `str::lines` gives them.
pub fn split_lines(s: &str) -> (r: Vec<String>)
    ensures
        r.deep_view() == text_lines(s@),
{
    let n = s.unicode_len();
    let mut res: Vec<String> = Vec::new();
    let mut start: usize = 0;
    let mut i: usize = 0;
    assert(s@.take(0) =~= Seq::<char>::empty());
    assert(res.deep_view() =~= line_pieces(s@.take(0)).drop_last().map_values(|l: Seq<char>| strip_cr(l)));
    while i < n
        invariant
            n == s@.len(),
            start <= i <= n,
            res.deep_view() == line_pieces(s@.take(i as int)).drop_last().map_values(
                |l: Seq<char>| strip_cr(l),
            ),
            line_pieces(s@.take(i as int)).last() == s@.subrange(start as int, i as int),
        decreases n - i,
    {
        let ghost p = line_pieces(s@.take(i as int));
        proof {
            lemma_line_pieces_len(s@.take(i as int));
        }
        let ghost q = s@.take(i + 1);
        assert(q.drop_last() =~= s@.take(i as int));
        let c = s.get_char(i);
        assert(q.last() == c);
        if c == '\n' {
            let end = if i > start && s.get_char(i - 1) == '\r' {
                i - 1
            } else {
                i
            };
            let piece = s.substring_char(start, end).to_owned();
            assert(piece@ =~= strip_cr(s@.subrange(start as int, i as int)));
            let ghost before = res.deep_view();
            res.push(piece);
            assert(res.deep_view() =~= before.push(piece@));
            assert(line_pieces(q) == p.push(seq![]));
            assert(line_pieces(q).drop_last() =~= p);
            assert(p =~= p.drop_last().push(p.last()));
            assert(res.deep_view() =~= line_pieces(q).drop_last().map_values(|l: Seq<char>| strip_cr(l)));
            start = i + 1;
            assert(line_pieces(q).last() =~= s@.subrange(start as int, (i + 1) as int));
        } else {
            assert(line_pieces(q) == p.update(p.len() - 1, p.last().push(c)));
            assert(line_pieces(q).drop_last() =~= p.drop_last());
            assert(line_pieces(q).last() =~= s@.subrange(start as int, (i + 1) as int));
        }
        i = i + 1;
    }
    assert(s@.take(n as int) =~= s@);
    if start < n {
        let piece = s.substring_char(start, n).to_owned();
        let ghost before = res.deep_view();
        res.push(piece);
        assert(res.deep_view() =~= before.push(piece@));
    }
    res
}

/// `out` shows each of `lines` with the styles of the spans on it, each
/// followed by a newline.
pub open spec fn shows_lines(
    out: Seq<char>,
    lines: Seq<Seq<char>>,
    styles: Seq<(SingleLineSpan, Style)>,
) -> bool {
    exists|outs: Seq<Seq<char>>|
        {
            &&& #[trigger] outs.len() == lines.len()
            &&& concat_words(outs) == out
            &&& forall|k: int|
                0 <= k < lines.len() ==> {
                    &&& (#[trigger] outs[k]).len() > 0
                    &&& outs[k].last() == '\n'
                    &&& renders(
                        outs[k].drop_last(),
                        lines[k],
                        line_segments_spec(line_styles(styles, k as nat), lines[k].len()),
                    )
                }
        }
}

/// Apply the styles to the spans specified, line by line, dimming any text
/// that no span covers. Spans may reach beyond the end of their line.
pub fn apply(s: &str, styles: &[(SingleLineSpan, Style)]) -> (r: String)
    requires
        spans_ordered(styles@),
    ensures
        shows_lines(r@, text_lines(s@), styles@),
{
    let lines = split_lines(s);
    let ghost tl = text_lines(s@);
    let mut res = String::new();
    let ghost mut outs: Seq<Seq<char>> = seq![];
    let mut i: usize = 0;
    while i < lines.len()
        invariant
            lines.deep_view() == tl,
            spans_ordered(styles@),
            i <= lines@.len(),
            outs.len() == i,
            concat_words(outs) == res@,
            forall|k: int|
                0 <= k < i ==> {
                    &&& (#[trigger] outs[k]).len() > 0
                    &&& outs[k].last() == '\n'
                    &&& renders(
                        outs[k].drop_last(),
                        tl[k],
                        line_segments_spec(line_styles(styles@, k as nat), tl[k].len()),
                    )
                },
        decreases lines@.len() - i,
    {
        let ranges = group_by_line(styles, LineNumber(i));
        let line = &lines[i];
        assert(line@ == tl[i as int]);
        let mut out = apply_line(line.as_str(), ranges.as_slice());
        let ghost styled = out@;
        out.append("\n");
        proof {
            reveal_strlit("\n");
            assert(out@.drop_last() =~= styled);
            lemma_concat_push(outs, out@);
            outs = outs.push(out@);
        }
        res.append(out.as_str());
        i = i + 1;
    }
    res
}

/// The style of a matched token on the left or right side.
pub open spec fn style_for(is_lhs: bool, kind: MatchKindView) -> Style {
    let accent = if is_lhs {
        TextColor::BrightRed
    } else {
        TextColor::BrightGreen
    };
    match kind {
        MatchKindView::Unchanged { highlight, .. } => Style {
            foreground: TextColor::White,
            background: None,
            bold: highlight == TokenKind::Atom(AtomKind::Keyword),
            dimmed: highlight == TokenKind::Atom(AtomKind::Comment),
        },
        MatchKindView::Novel { highlight } => Style {
            foreground: accent,
            background: None,
            bold: highlight == TokenKind::Atom(AtomKind::Keyword),
            dimmed: false,
        },
        MatchKindView::ChangedCommentPart => Style {
            foreground: accent,
            background: None,
            bold: false,
            dimmed: false,
        },
        MatchKindView::UnchangedCommentPart { .. } => Style {
            foreground: if is_lhs {
                TextColor::Red
            } else {
                TextColor::Green
            },
            background: None,
            bold: false,
            dimmed: false,
        },
    }
}

pub open spec fn position_styles(is_lhs: bool, positions: Seq<MatchedPosView>) -> Seq<
    (SingleLineSpan, Style),
> {
    positions.map_values(|p: MatchedPosView| (p.pos, style_for(is_lhs, p.kind)))
}

/// The span and style of each matched position.
pub fn color_positions(is_lhs: bool, positions: &[MatchedPos]) -> (r: Vec<(SingleLineSpan, Style)>)
    ensures
        r@ == position_styles(is_lhs, view_all(positions@)),
{
    let mut styles: Vec<(SingleLineSpan, Style)> = Vec::new();
    let mut k: usize = 0;
    while k < positions.len()
        invariant
            k <= positions@.len(),
            styles@ == position_styles(is_lhs, view_all(positions@.take(k as int))),
        decreases positions@.len() - k,
    {
        let pos = &positions[k];
        let highlight_bold = |h: TokenKind| -> (b: bool)
            ensures
                b == (h == TokenKind::Atom(AtomKind::Keyword)),
            { h == TokenKind::Atom(AtomKind::Keyword) };
        let accent = if is_lhs {
            TextColor::BrightRed
        } else {
            TextColor::BrightGreen
        };
        let style = match &pos.kind {
            MatchKind::Unchanged { highlight, .. } => Style {
                foreground: TextColor::White,
                background: None,
                bold: highlight_bold(*highlight),
                dimmed: *highlight == TokenKind::Atom(AtomKind::Comment),
            },
            MatchKind::Novel { highlight } => Style {
                foreground: accent,
                background: None,
                bold: highlight_bold(*highlight),
                dimmed: false,
            },
            MatchKind::ChangedCommentPart {} => Style {
                foreground: accent,
                background: None,
                bold: false,
                dimmed: false,
            },
            MatchKind::UnchangedCommentPart { .. } => Style {
                foreground: if is_lhs {
                    TextColor::Red
                } else {
                    TextColor::Green
                },
                background: None,
                bold: false,
                dimmed: false,
            },
        };
        styles.push((pos.pos, style));
        assert(styles@ =~= position_styles(is_lhs, view_all(positions@.take(k + 1))));
        k = k + 1;
    }
    assert(positions@.take(k as int) =~= positions@);
    styles
}

/// Colour the text `s` of one side with its matched positions.
pub fn apply_colors(s: &str, is_lhs: bool, positions: &[MatchedPos]) -> (r: String)
    requires
        forall|k: int| 0 <= k < positions@.len() ==> #[trigger] positions@[k].pos.start_col <= positions@[k].pos.end_col,
    ensures
        shows_lines(r@, text_lines(s@), position_styles(is_lhs, view_all(positions@))),
{
    let styles = color_positions(is_lhs, positions);
    assert forall|k: int| 0 <= k < styles@.len() implies #[trigger] styles@[k].0.start_col <= styles@[k].0.end_col by {
        assert(styles@[k].0 == positions@[k].pos);
    }
    apply(s, styles.as_slice())
}

/// A hunk heading around an already highlighted file name.
pub open spec fn header_text(name: Seq<char>, hunk_num: nat, hunk_total: nat, language: Seq<char>) -> Seq<char> {
    name + " --- "@ + decimal_text(hunk_num) + "/"@ + decimal_text(hunk_total) + " --- "@ + language
}

/// The heading of a hunk: the file name highlighted, the hunk's number and
/// the number of hunks, and the language.
pub fn header(file_name: &str, hunk_num: usize, hunk_total: usize, language_name: &str) -> (r: String)
    ensures
        exists|name: Seq<char>|
            {
                &&& (!has_escape(file_name@) ==> paints(name, file_name@))
                &&& r@ == #[trigger] header_text(name, hunk_num as nat, hunk_total as nat, language_name@)
            },
{
    let mut res = highlight_name(file_name);
    let ghost name = res@;
    res.append(" --- ");
    res.append(decimal(hunk_num).as_str());
    res.append("/");
    res.append(decimal(hunk_total).as_str());
    res.append(" --- ");
    res.append(language_name);
    assert(res@ =~= name + " --- "@ + decimal_text(hunk_num as nat) + "/"@ + decimal_text(
        hunk_total as nat,
    ) + " --- "@ + language_name@);
    assert(!has_escape(file_name@) ==> paints(name, file_name@));
    assert(res@ == header_text(name, hunk_num as nat, hunk_total as nat, language_name@));
    res
}

} // verus!
