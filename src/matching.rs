//! Matched positions: the change state of annotated trees projected onto
//! single-line spans, ready for styling.
use vstd::prelude::*;
use crate::positions::{LineNumber, SingleLineSpan};
use crate::syntax::{
    children_of, close_spans, copy_spans, open_spans, Arena, ChangeKind, Syntax, SyntaxInfo, TokenKind,
};
use crate::words::{concat_words, split_words, words_of, lemma_words_concat};

verus! {

/// A matched token (an atom, a delimiter, or a comment word).
#[derive(Debug, PartialEq, Eq)]
pub enum MatchKind {
    Unchanged {
        highlight: TokenKind,
        self_pos: (Vec<SingleLineSpan>, Vec<SingleLineSpan>),
        /// A matched atom uses the first list only; a matched delimiter
        /// pair uses both.
        opposite_pos: (Vec<SingleLineSpan>, Vec<SingleLineSpan>),
    },
    Novel { highlight: TokenKind },
    UnchangedCommentPart { self_pos: SingleLineSpan, opposite_pos: Vec<SingleLineSpan> },
    ChangedCommentPart {},
}

/// What a [`MatchKind`] holds, with its lists as sequences.
pub enum MatchKindView {
    Unchanged {
        highlight: TokenKind,
        self_pos: (Seq<SingleLineSpan>, Seq<SingleLineSpan>),
        opposite_pos: (Seq<SingleLineSpan>, Seq<SingleLineSpan>),
    },
    Novel { highlight: TokenKind },
    UnchangedCommentPart { self_pos: SingleLineSpan, opposite_pos: Seq<SingleLineSpan> },
    ChangedCommentPart,
}

impl View for MatchKind {
    type V = MatchKindView;

    open spec fn view(&self) -> MatchKindView {
        match self {
            MatchKind::Unchanged { highlight, self_pos, opposite_pos } => MatchKindView::Unchanged {
                highlight: *highlight,
                self_pos: (self_pos.0@, self_pos.1@),
                opposite_pos: (opposite_pos.0@, opposite_pos.1@),
            },
            MatchKind::Novel { highlight } => MatchKindView::Novel { highlight: *highlight },
            MatchKind::UnchangedCommentPart { self_pos, opposite_pos } => {
                MatchKindView::UnchangedCommentPart {
                    self_pos: *self_pos,
                    opposite_pos: opposite_pos@,
                }
            },
            MatchKind::ChangedCommentPart {} => MatchKindView::ChangedCommentPart,
        }
    }
}

impl MatchKind {
    /// A copy of this kind.
    pub fn duplicate(&self) -> (r: MatchKind)
        ensures
            r@ == self@,
    {
        match self {
            MatchKind::Unchanged { highlight, self_pos, opposite_pos } => MatchKind::Unchanged {
                highlight: *highlight,
                self_pos: (copy_spans(self_pos.0.as_slice()), copy_spans(self_pos.1.as_slice())),
                opposite_pos: (
                    copy_spans(opposite_pos.0.as_slice()),
                    copy_spans(opposite_pos.1.as_slice()),
                ),
            },
            MatchKind::Novel { highlight } => MatchKind::Novel { highlight: *highlight },
            MatchKind::UnchangedCommentPart { self_pos, opposite_pos } => {
                MatchKind::UnchangedCommentPart {
                    self_pos: *self_pos,
                    opposite_pos: copy_spans(opposite_pos.as_slice()),
                }
            },
            MatchKind::ChangedCommentPart {} => MatchKind::ChangedCommentPart {},
        }
    }

    /// The first span of the matching token on the other side, if any.
    pub fn first_opposite_span(&self) -> (r: Option<SingleLineSpan>)
        ensures
            r == match self@ {
                MatchKindView::Unchanged { opposite_pos, .. } => if opposite_pos.0.len() > 0 {
                    Some(opposite_pos.0[0])
                } else {
                    None
                },
                MatchKindView::UnchangedCommentPart { opposite_pos, .. } => if opposite_pos.len()
                    > 0 {
                    Some(opposite_pos[0])
                } else {
                    None
                },
                _ => None,
            },
    {
        match self {
            MatchKind::Unchanged { opposite_pos, .. } => if opposite_pos.0.len() > 0 {
                Some(opposite_pos.0[0])
            } else {
                None
            },
            MatchKind::UnchangedCommentPart { opposite_pos, .. } => if opposite_pos.len() > 0 {
                Some(opposite_pos[0])
            } else {
                None
            },
            MatchKind::Novel { .. } => None,
            MatchKind::ChangedCommentPart {} => None,
        }
    }

    /// Whether this token is novel on its side.
    pub fn is_change(&self) -> (r: bool)
        ensures
            r == (self@ is Novel || self@ is ChangedCommentPart),
    {
        match self {
            MatchKind::Novel { .. } => true,
            MatchKind::ChangedCommentPart {} => true,
            _ => false,
        }
    }
}

#[derive(Debug, PartialEq, Eq)]
pub struct MatchedPos {
    pub kind: MatchKind,
    pub pos: SingleLineSpan,
}

pub struct MatchedPosView {
    pub kind: MatchKindView,
    pub pos: SingleLineSpan,
}

impl View for MatchedPos {
    type V = MatchedPosView;

    open spec fn view(&self) -> MatchedPosView {
        MatchedPosView { kind: self.kind@, pos: self.pos }
    }
}

pub open spec fn view_all(v: Seq<MatchedPos>) -> Seq<MatchedPosView> {
    v.map_values(|m: MatchedPos| m@)
}

/// One step of a word alignment.
pub enum WordDiff {
    /// A word found on this side only.
    Left(String),
    /// A word found on both sides.
    Both(String, String),
    /// A word found on the opposite side only.
    Right(String),
}

pub enum WordDiffView {
    Left(Seq<char>),
    Both(Seq<char>, Seq<char>),
    Right(Seq<char>),
}

impl View for WordDiff {
    type V = WordDiffView;

    open spec fn view(&self) -> WordDiffView {
        match self {
            WordDiff::Left(w) => WordDiffView::Left(w@),
            WordDiff::Both(w, o) => WordDiffView::Both(w@, o@),
            WordDiff::Right(o) => WordDiffView::Right(o@),
        }
    }
}

pub open spec fn diff_view(ds: Seq<WordDiff>) -> Seq<WordDiffView> {
    ds.map_values(|d: WordDiff| d@)
}

/// The words of this side, in the order in which an alignment lists them.
pub open spec fn left_words(ds: Seq<WordDiffView>) -> Seq<Seq<char>>
    decreases ds.len(),
{
    if ds.len() == 0 {
        seq![]
    } else {
        match ds[0] {
            WordDiffView::Left(w) => seq![w] + left_words(ds.drop_first()),
            WordDiffView::Both(w, _) => seq![w] + left_words(ds.drop_first()),
            WordDiffView::Right(_) => left_words(ds.drop_first()),
        }
    }
}

/// The words of the opposite side, in the order in which an alignment
/// lists them.
pub open spec fn right_words(ds: Seq<WordDiffView>) -> Seq<Seq<char>>
    decreases ds.len(),
{
    if ds.len() == 0 {
        seq![]
    } else {
        match ds[0] {
            WordDiffView::Left(_) => right_words(ds.drop_first()),
            WordDiffView::Both(_, o) => seq![o] + right_words(ds.drop_first()),
            WordDiffView::Right(o) => seq![o] + right_words(ds.drop_first()),
        }
    }
}

/// The number of characters of this side in an alignment.
pub open spec fn left_len(ds: Seq<WordDiffView>) -> nat
    decreases ds.len(),
{
    if ds.len() == 0 {
        0
    } else {
        match ds[0] {
            WordDiffView::Left(w) => w.len() + left_len(ds.drop_first()),
            WordDiffView::Both(w, _) => w.len() + left_len(ds.drop_first()),
            WordDiffView::Right(_) => left_len(ds.drop_first()),
        }
    }
}

/// The number of characters of the opposite side in an alignment.
pub open spec fn right_len(ds: Seq<WordDiffView>) -> nat
    decreases ds.len(),
{
    if ds.len() == 0 {
        0
    } else {
        match ds[0] {
            WordDiffView::Left(_) => right_len(ds.drop_first()),
            WordDiffView::Both(_, o) => o.len() + right_len(ds.drop_first()),
            WordDiffView::Right(o) => o.len() + right_len(ds.drop_first()),
        }
    }
}

/// The alignment that a longest-common-subsequence diff gives for two
/// word lists.
pub uninterp spec fn word_alignment(lhs: Seq<Seq<char>>, rhs: Seq<Seq<char>>) -> Seq<WordDiffView>;

/// Relies on `diff::slice`: it aligns two lists by a longest common
/// subsequence, and reading its steps in order gives back each input.
#[verifier::external_body]
fn align_words(lhs: &Vec<String>, rhs: &Vec<String>) -> (r: Vec<WordDiff>)
    ensures
        diff_view(r@) == word_alignment(lhs.deep_view(), rhs.deep_view()),
        left_words(diff_view(r@)) == lhs.deep_view(),
        right_words(diff_view(r@)) == rhs.deep_view(),
{
    diff::slice(lhs, rhs).into_iter().map(|d| match d {
        diff::Result::Left(l) => WordDiff::Left(l.clone()),
        diff::Result::Both(l, r) => WordDiff::Both(l.clone(), r.clone()),
        diff::Result::Right(r) => WordDiff::Right(r.clone()),
    }).collect()
}

/// A text position as (line, column).
pub open spec fn step(c: (int, int), ch: char) -> (int, int) {
    if ch == '\n' {
        (c.0 + 1, 0)
    } else {
        (c.0, c.1 + 1)
    }
}

/// The position after the text `w` that starts at `c`.
pub open spec fn advance(c: (int, int), w: Seq<char>) -> (int, int)
    decreases w.len(),
{
    if w.len() == 0 {
        c
    } else {
        step(advance(c, w.drop_last()), w.last())
    }
}

pub open spec fn has_newline(w: Seq<char>) -> bool {
    exists|i: int| 0 <= i < w.len() && w[i] == '\n'
}

/// The number of characters of `w` on its first line, its first newline
/// included.
pub open spec fn first_line_len(w: Seq<char>) -> nat
    decreases w.len(),
{
    if w.len() == 0 {
        0
    } else if has_newline(w.drop_last()) {
        first_line_len(w.drop_last())
    } else {
        w.len()
    }
}

/// The span of the first line of the text `w` that starts at `c`.
pub open spec fn word_span(c: (int, int), w: Seq<char>) -> SingleLineSpan {
    SingleLineSpan {
        line: LineNumber(c.0 as usize),
        start_col: c.1 as usize,
        end_col: (c.1 + first_line_len(w)) as usize,
    }
}

pub open spec fn span_start(s: SingleLineSpan) -> (int, int) {
    (s.line.0 as int, s.start_col as int)
}

/// The matched positions of the words of a revised comment, given the
/// alignment of its words with those of the opposite comment, and where
/// each comment starts.
pub open spec fn comment_parts(ds: Seq<WordDiffView>, cur: (int, int), opp: (int, int)) -> Seq<
    MatchedPosView,
>
    decreases ds.len(),
{
    if ds.len() == 0 {
        seq![]
    } else {
        let rest = ds.drop_first();
        match ds[0] {
            WordDiffView::Left(w) => seq![
                MatchedPosView { kind: MatchKindView::ChangedCommentPart, pos: word_span(cur, w) },
            ] + comment_parts(rest, advance(cur, w), opp),
            WordDiffView::Both(w, o) => seq![
                MatchedPosView {
                    kind: MatchKindView::UnchangedCommentPart {
                        self_pos: word_span(cur, w),
                        opposite_pos: seq![word_span(opp, o)],
                    },
                    pos: word_span(cur, w),
                },
            ] + comment_parts(rest, advance(cur, w), advance(opp, o)),
            WordDiffView::Right(o) => comment_parts(rest, cur, advance(opp, o)),
        }
    }
}

pub proof fn lemma_advance_bounds(c: (int, int), w: Seq<char>)
    requires
        c.1 >= 0,
    ensures
        c.0 <= advance(c, w).0 <= c.0 + w.len(),
        0 <= advance(c, w).1 <= c.1 + w.len(),
        first_line_len(w) <= w.len(),
    decreases w.len(),
{
    if w.len() > 0 {
        lemma_advance_bounds(c, w.drop_last());
    }
}

pub proof fn lemma_left_len(ds: Seq<WordDiffView>)
    ensures
        left_len(ds) == concat_words(left_words(ds)).len(),
        right_len(ds) == concat_words(right_words(ds)).len(),
    decreases ds.len(),
{
    if ds.len() > 0 {
        lemma_left_len(ds.drop_first());
        let lw = left_words(ds);
        let rw = right_words(ds);
        match ds[0] {
            WordDiffView::Left(w) => {
                assert(lw.drop_first() == left_words(ds.drop_first()));
            },
            WordDiffView::Both(w, o) => {
                assert(lw.drop_first() == left_words(ds.drop_first()));
                assert(rw.drop_first() == right_words(ds.drop_first()));
            },
            WordDiffView::Right(o) => {
                assert(rw.drop_first() == right_words(ds.drop_first()));
            },
        }
    }
}

/// Move the position (line, col) over the text `w`; also return the
/// number of characters of `w` on its first line.
fn advance_over(line: usize, col: usize, w: &str) -> (r: (usize, usize, usize))
    requires
        line + w@.len() <= usize::MAX,
        col + w@.len() <= usize::MAX,
    ensures
        (r.0 as int, r.1 as int) == advance((line as int, col as int), w@),
        r.2 == first_line_len(w@),
{
    let n = w.unicode_len();
    let mut l = line;
    let mut c = col;
    let mut first: usize = 0;
    let mut seen = false;
    let mut i: usize = 0;
    while i < n
        invariant
            n == w@.len(),
            i <= n,
            line + n <= usize::MAX,
            col + n <= usize::MAX,
            (l as int, c as int) == advance((line as int, col as int), w@.take(i as int)),
            first == first_line_len(w@.take(i as int)),
            seen == has_newline(w@.take(i as int)),
        decreases n - i,
    {
        proof {
            lemma_advance_bounds((line as int, col as int), w@.take(i as int));
        }
        let ch = w.get_char(i);
        let ghost p = w@.take(i as int);
        let ghost q = w@.take(i + 1);
        assert(q.drop_last() =~= p);
        assert(q.last() == ch);
        if !seen {
            first = i + 1;
        }
        if ch == '\n' {
            l = l + 1;
            c = 0;
            seen = true;
        } else {
            c = c + 1;
        }
        proof {
            if ch == '\n' {
                assert(q[i as int] == '\n');
            } else if !has_newline(p) {
                assert forall|j: int| 0 <= j < q.len() implies q[j] != '\n' by {
                    if j < i {
                        assert(q[j] == p[j]);
                    }
                }
            } else {
                let j = choose|j: int| 0 <= j < p.len() && p[j] == '\n';
                assert(q[j] == p[j]);
            }
        }
        i = i + 1;
    }
    assert(w@.take(n as int) =~= w@);
    (l, c, first)
}

fn word_text(d: &WordDiff) -> (r: &String)
    ensures
        r@ == match d@ {
            WordDiffView::Left(w) => w,
            WordDiffView::Both(w, _) => w,
            WordDiffView::Right(o) => o,
        },
{
    match d {
        WordDiff::Left(w) => w,
        WordDiff::Both(w, _) => w,
        WordDiff::Right(o) => o,
    }
}

/// The matched positions of the words of a revised comment that starts at
/// `pos`, from the alignment `ds` of its words with those of the opposite
/// comment, which starts at `opposite_pos`.
pub fn comment_parts_from_diff(
    ds: &Vec<WordDiff>,
    pos: SingleLineSpan,
    opposite_pos: SingleLineSpan,
) -> (r: Vec<MatchedPos>)
    requires
        pos.line.0 + left_len(diff_view(ds@)) <= usize::MAX,
        pos.start_col + left_len(diff_view(ds@)) <= usize::MAX,
        opposite_pos.line.0 + right_len(diff_view(ds@)) <= usize::MAX,
        opposite_pos.start_col + right_len(diff_view(ds@)) <= usize::MAX,
    ensures
        view_all(r@) == comment_parts(diff_view(ds@), span_start(pos), span_start(opposite_pos)),
{
    let ghost dv = diff_view(ds@);
    let mut res: Vec<MatchedPos> = Vec::new();
    let mut line = pos.line.0;
    let mut col = pos.start_col;
    let mut oline = opposite_pos.line.0;
    let mut ocol = opposite_pos.start_col;
    let mut i: usize = 0;
    assert(dv.skip(0) =~= dv);
    while i < ds.len()
        invariant
            dv == diff_view(ds@),
            i <= ds@.len(),
            view_all(res@) + comment_parts(
                dv.skip(i as int),
                (line as int, col as int),
                (oline as int, ocol as int),
            ) == comment_parts(dv, span_start(pos), span_start(opposite_pos)),
            line + left_len(dv.skip(i as int)) <= pos.line.0 + left_len(dv),
            col + left_len(dv.skip(i as int)) <= pos.start_col + left_len(dv),
            oline + right_len(dv.skip(i as int)) <= opposite_pos.line.0 + right_len(dv),
            ocol + right_len(dv.skip(i as int)) <= opposite_pos.start_col + right_len(dv),
            pos.line.0 + left_len(dv) <= usize::MAX,
            pos.start_col + left_len(dv) <= usize::MAX,
            opposite_pos.line.0 + right_len(dv) <= usize::MAX,
            opposite_pos.start_col + right_len(dv) <= usize::MAX,
        decreases ds@.len() - i,
    {
        let ghost rest = dv.skip(i as int);
        assert(rest.drop_first() =~= dv.skip(i + 1));
        assert(rest[0] == ds@[i as int]@);
        let ghost before = view_all(res@);
        let ghost cur_start = (line as int, col as int);
        let ghost opp_start = (oline as int, ocol as int);
        let d = &ds[i];
        let w = word_text(d);
        match d {
            WordDiff::Left(_) => {
                let (l2, c2, first) = advance_over(line, col, w.as_str());
                proof {
                    lemma_advance_bounds((line as int, col as int), w@);
                }
                let span = SingleLineSpan { line: LineNumber(line), start_col: col, end_col: col + first };
                res.push(MatchedPos { kind: MatchKind::ChangedCommentPart {}, pos: span });
                line = l2;
                col = c2;
            },
            WordDiff::Both(_, o) => {
                let (l2, c2, first) = advance_over(line, col, w.as_str());
                let (ol2, oc2, ofirst) = advance_over(oline, ocol, o.as_str());
                proof {
                    lemma_advance_bounds((line as int, col as int), w@);
                    lemma_advance_bounds((oline as int, ocol as int), o@);
                }
                let span = SingleLineSpan { line: LineNumber(line), start_col: col, end_col: col + first };
                let ospan = SingleLineSpan {
                    line: LineNumber(oline),
                    start_col: ocol,
                    end_col: ocol + ofirst,
                };
                let mut opposite: Vec<SingleLineSpan> = Vec::new();
                opposite.push(ospan);
                res.push(
                    MatchedPos {
                        kind: MatchKind::UnchangedCommentPart { self_pos: span, opposite_pos: opposite },
                        pos: span,
                    },
                );
                line = l2;
                col = c2;
                oline = ol2;
                ocol = oc2;
            },
            WordDiff::Right(_) => {
                let (ol2, oc2, _) = advance_over(oline, ocol, w.as_str());
                proof {
                    lemma_advance_bounds((oline as int, ocol as int), w@);
                }
                oline = ol2;
                ocol = oc2;
            },
        }
        proof {
            let after = view_all(res@);
            let tail = comment_parts(dv.skip(i + 1), (line as int, col as int), (oline as int, ocol as int));
            assert(after =~= before + after.skip(before.len() as int));
            assert(after.skip(before.len() as int) + tail =~= comment_parts(rest, cur_start, opp_start));
            assert(after + tail =~= before + comment_parts(rest, cur_start, opp_start));
        }
        i = i + 1;
    }
    assert(dv.skip(i as int) =~= Seq::<WordDiffView>::empty());
    assert(view_all(res@) + Seq::<MatchedPosView>::empty() =~= view_all(res@));
    res
}

/// The matched positions of the words of the comment `content`, which
/// starts at `pos`, revised from or into `opposite_content`, which starts
/// at `opposite_pos`: words found on this side only are changed parts,
/// words found on both sides are unchanged parts.
pub fn split_comment_words(
    content: &str,
    pos: SingleLineSpan,
    opposite_content: &str,
    opposite_pos: SingleLineSpan,
) -> (r: Vec<MatchedPos>)
    requires
        pos.line.0 + content@.len() <= usize::MAX,
        pos.start_col + content@.len() <= usize::MAX,
        opposite_pos.line.0 + opposite_content@.len() <= usize::MAX,
        opposite_pos.start_col + opposite_content@.len() <= usize::MAX,
    ensures
        view_all(r@) == comment_parts(
            word_alignment(words_of(content@), words_of(opposite_content@)),
            span_start(pos),
            span_start(opposite_pos),
        ),
{
    let content_parts = split_words(content);
    let other_parts = split_words(opposite_content);
    let ds = align_words(&content_parts, &other_parts);
    proof {
        lemma_left_len(diff_view(ds@));
        lemma_words_concat(content@);
        lemma_words_concat(opposite_content@);
    }
    comment_parts_from_diff(&ds, pos, opposite_pos)
}

/// The text of an atom; empty for a list.
pub open spec fn atom_text(node: Syntax) -> Seq<char> {
    match node {
        Syntax::Atom { content, .. } => content@,
        Syntax::List { .. } => seq![],
    }
}

/// One matched position of `kind` per non-empty span of `spans`.
pub open spec fn spans_positions(kind: MatchKindView, spans: Seq<SingleLineSpan>) -> Seq<
    MatchedPosView,
>
    decreases spans.len(),
{
    if spans.len() == 0 {
        seq![]
    } else {
        let s = spans.last();
        spans_positions(kind, spans.drop_last()) + if s.start_col == s.end_col {
            seq![]
        } else {
            seq![MatchedPosView { kind, pos: s }]
        }
    }
}

/// What `MatchedPos::new` needs of a change kind: the nodes it names are in
/// the arena, and a revised comment is a pair of atoms with positions whose
/// word spans fit in `usize`.
pub open spec fn positions_ok(nodes: Seq<Syntax>, ck: ChangeKind, self_pos: Seq<SingleLineSpan>) -> bool {
    match ck {
        ChangeKind::Unchanged(o) => o < nodes.len(),
        ChangeKind::ReplacedComment(a, b) => {
            &&& a < nodes.len()
            &&& b < nodes.len()
            &&& nodes[a as int] is Atom
            &&& nodes[b as int] is Atom
            &&& self_pos.len() > 0
            &&& open_spans(nodes[b as int]).len() > 0
            &&& self_pos[0].line.0 + atom_text(nodes[a as int]).len() <= usize::MAX
            &&& self_pos[0].start_col + atom_text(nodes[a as int]).len() <= usize::MAX
            &&& open_spans(nodes[b as int])[0].line.0 + atom_text(nodes[b as int]).len()
                <= usize::MAX
            &&& open_spans(nodes[b as int])[0].start_col + atom_text(nodes[b as int]).len()
                <= usize::MAX
        },
        ChangeKind::Novel => true,
    }
}

/// The matched positions that `MatchedPos::new` gives.
pub open spec fn new_positions(
    nodes: Seq<Syntax>,
    ck: ChangeKind,
    highlight: TokenKind,
    pos: (Seq<SingleLineSpan>, Seq<SingleLineSpan>),
) -> Seq<MatchedPosView> {
    match ck {
        ChangeKind::ReplacedComment(a, b) => comment_parts(
            word_alignment(words_of(atom_text(nodes[a as int])), words_of(atom_text(nodes[b as int]))),
            span_start(pos.0[0]),
            span_start(open_spans(nodes[b as int])[0]),
        ),
        ChangeKind::Unchanged(o) => spans_positions(
            MatchKindView::Unchanged {
                highlight,
                self_pos: pos,
                opposite_pos: (open_spans(nodes[o as int]), close_spans(nodes[o as int])),
            },
            pos.0,
        ),
        ChangeKind::Novel => spans_positions(MatchKindView::Novel { highlight }, pos.0),
    }
}

fn atom_parts(node: &Syntax) -> (r: (&String, &Vec<SingleLineSpan>))
    requires
        node is Atom,
    ensures
        r.0@ == atom_text(*node),
        r.1@ == open_spans(*node),
{
    match node {
        Syntax::Atom { content, position, .. } => (content, position),
        Syntax::List { open_content, open_position, .. } => (open_content, open_position),
    }
}

fn opposite_spans(node: &Syntax) -> (r: (Vec<SingleLineSpan>, Vec<SingleLineSpan>))
    ensures
        r.0@ == open_spans(*node),
        r.1@ == close_spans(*node),
{
    match node {
        Syntax::List { open_position, close_position, .. } => (
            copy_spans(open_position.as_slice()),
            copy_spans(close_position.as_slice()),
        ),
        Syntax::Atom { position, .. } => (
            copy_spans(position.as_slice()),
            copy_spans(position.as_slice()),
        ),
    }
}

impl MatchedPos {
    /// The matched positions of a token with change `ck` and spans `pos`:
    /// one per non-empty span of `pos.0`, or, for a revised comment, one
    /// per word of it that is kept.
    pub fn new(
        arena: &Arena,
        ck: ChangeKind,
        highlight: TokenKind,
        pos: (&[SingleLineSpan], &[SingleLineSpan]),
    ) -> (r: Vec<MatchedPos>)
        requires
            positions_ok(arena.nodes@, ck, pos.0@),
        ensures
            view_all(r@) == new_positions(arena.nodes@, ck, highlight, (pos.0@, pos.1@)),
    {
        let kind = match ck {
            ChangeKind::ReplacedComment(this, opposite) => {
                let (this_content, _) = atom_parts(&arena.nodes[this]);
                let (opposite_content, opposite_position) = atom_parts(&arena.nodes[opposite]);
                return split_comment_words(
                    this_content.as_str(),
                    pos.0[0],
                    opposite_content.as_str(),
                    opposite_position[0],
                );
            },
            ChangeKind::Unchanged(opposite) => {
                let opposite_pos = opposite_spans(&arena.nodes[opposite]);
                MatchKind::Unchanged {
                    highlight,
                    self_pos: (copy_spans(pos.0), copy_spans(pos.1)),
                    opposite_pos,
                }
            },
            ChangeKind::Novel => MatchKind::Novel { highlight },
        };
        let ghost kv = kind@;
        let spans = pos.0;
        let mut res: Vec<MatchedPos> = Vec::new();
        let mut i: usize = 0;
        while i < spans.len()
            invariant
                i <= spans@.len(),
                kind@ == kv,
                view_all(res@) == spans_positions(kv, spans@.take(i as int)),
            decreases spans@.len() - i,
        {
            let line_pos = spans[i];
            let ghost before = view_all(res@);
            assert(spans@.take(i + 1).drop_last() =~= spans@.take(i as int));
            // Empty spans come from lists with empty delimiters, such as
            // the top-level list of a file.
            if line_pos.start_col != line_pos.end_col {
                res.push(MatchedPos { kind: kind.duplicate(), pos: line_pos });
                assert(view_all(res@) =~= before + seq![MatchedPosView { kind: kv, pos: line_pos }]);
            } else {
                assert(before =~= before + Seq::<MatchedPosView>::empty());
            }
            i = i + 1;
        }
        assert(spans@.take(i as int) =~= spans@);
        res
    }
}

/// Every node from `n` down has a change kind that `MatchedPos::new` can
/// work with.
pub open spec fn annotated(nodes: Seq<Syntax>, infos: Seq<SyntaxInfo>, n: usize) -> bool
    decreases n,
{
    &&& n < nodes.len()
    &&& n < infos.len()
    &&& infos[n as int].change is Some
    &&& positions_ok(nodes, infos[n as int].change.unwrap(), open_spans(nodes[n as int]))
    &&& positions_ok(nodes, infos[n as int].change.unwrap(), close_spans(nodes[n as int]))
    &&& forall|k: int|
        0 <= k < children_of(nodes[n as int]).len() ==> {
            let c = #[trigger] children_of(nodes[n as int])[k];
            c < n && annotated(nodes, infos, c)
        }
}

/// The matched positions of node `n` and the nodes below it, in order.
pub open spec fn node_positions(nodes: Seq<Syntax>, infos: Seq<SyntaxInfo>, n: usize) -> Seq<
    MatchedPosView,
>
    decreases n, children_of(nodes[n as int]).len() + 1,
{
    let ck = infos[n as int].change.unwrap();
    match nodes[n as int] {
        Syntax::List { open_position, close_position, children, .. } => new_positions(
            nodes,
            ck,
            TokenKind::Delimiter,
            (open_position@, close_position@),
        ) + children_positions(nodes, infos, n, children@.len()) + new_positions(
            nodes,
            ck,
            TokenKind::Delimiter,
            (close_position@, close_position@),
        ),
        Syntax::Atom { position, kind, .. } => new_positions(
            nodes,
            ck,
            TokenKind::Atom(kind),
            (position@, seq![]),
        ),
    }
}

/// The matched positions of the first `k` children of node `n`.
pub open spec fn children_positions(
    nodes: Seq<Syntax>,
    infos: Seq<SyntaxInfo>,
    n: usize,
    k: nat,
) -> Seq<MatchedPosView>
    decreases n, k,
{
    if k == 0 || k > children_of(nodes[n as int]).len() {
        seq![]
    } else {
        let c = children_of(nodes[n as int])[k - 1];
        children_positions(nodes, infos, n, (k - 1) as nat) + if c < n {
            node_positions(nodes, infos, c)
        } else {
            seq![]
        }
    }
}

/// The matched positions of the trees under `roots`, in order.
pub open spec fn roots_positions(nodes: Seq<Syntax>, infos: Seq<SyntaxInfo>, roots: Seq<usize>) -> Seq<
    MatchedPosView,
>
    decreases roots.len(),
{
    if roots.len() == 0 {
        seq![]
    } else {
        roots_positions(nodes, infos, roots.drop_last()) + node_positions(nodes, infos, roots.last())
    }
}

fn append_positions(dst: &mut Vec<MatchedPos>, src: Vec<MatchedPos>)
    ensures
        view_all(final(dst)@) == view_all(old(dst)@) + view_all(src@),
{
    let ghost s = src@;
    let mut src = src;
    dst.append(&mut src);
    assert(view_all(dst@) =~= view_all(old(dst)@) + view_all(s));
}

fn change_positions_node(arena: &Arena, n: usize, positions: &mut Vec<MatchedPos>)
    requires
        arena.wf(),
        annotated(arena.nodes@, arena.infos@, n),
    ensures
        view_all(final(positions)@) == view_all(old(positions)@) + node_positions(
            arena.nodes@,
            arena.infos@,
            n,
        ),
    decreases n,
{
    let change = match arena.infos[n].change {
        Some(ck) => ck,
        None => ChangeKind::Novel,
    };
    match &arena.nodes[n] {
        Syntax::List { open_position, close_position, children, .. } => {
            append_positions(
                positions,
                MatchedPos::new(
                    arena,
                    change,
                    TokenKind::Delimiter,
                    (open_position.as_slice(), close_position.as_slice()),
                ),
            );
            let ghost mid = view_all(positions@);
            let mut i: usize = 0;
            while i < children.len()
                invariant
                    arena.wf(),
                    annotated(arena.nodes@, arena.infos@, n),
                    arena.nodes@[n as int] is List,
                    children@ == children_of(arena.nodes@[n as int]),
                    i <= children@.len(),
                    view_all(positions@) == mid + children_positions(
                        arena.nodes@,
                        arena.infos@,
                        n,
                        i as nat,
                    ),
                decreases children@.len() - i,
            {
                let c = children[i];
                assert(children_of(arena.nodes@[n as int])[i as int] == c);
                change_positions_node(arena, c, positions);
                assert(view_all(positions@) =~= mid + children_positions(
                    arena.nodes@,
                    arena.infos@,
                    n,
                    (i + 1) as nat,
                ));
                i = i + 1;
            }
            append_positions(
                positions,
                MatchedPos::new(
                    arena,
                    change,
                    TokenKind::Delimiter,
                    (close_position.as_slice(), close_position.as_slice()),
                ),
            );
            assert(view_all(positions@) =~= view_all(old(positions)@) + node_positions(
                arena.nodes@,
                arena.infos@,
                n,
            ));
        },
        Syntax::Atom { position, kind, .. } => {
            let empty: Vec<SingleLineSpan> = Vec::new();
            append_positions(
                positions,
                MatchedPos::new(
                    arena,
                    change,
                    TokenKind::Atom(*kind),
                    (position.as_slice(), empty.as_slice()),
                ),
            );
            assert(empty@ =~= Seq::<SingleLineSpan>::empty());
        },
    }
}

/// Walk the trees under `nodes` and return the matched positions of all
/// their tokens, in order. Every node must carry a change kind. The source
/// texts of both sides are not read: the nodes' spans locate every token.
pub fn change_positions(
    src: &str,
    opposite_src: &str,
    arena: &Arena,
    nodes: &[usize],
) -> (r: Vec<MatchedPos>)
    requires
        arena.wf(),
        forall|i: int| 0 <= i < nodes@.len() ==> annotated(arena.nodes@, arena.infos@, #[trigger] nodes@[i]),
    ensures
        view_all(r@) == roots_positions(arena.nodes@, arena.infos@, nodes@),
{
    let mut positions: Vec<MatchedPos> = Vec::new();
    let mut i: usize = 0;
    while i < nodes.len()
        invariant
            arena.wf(),
            forall|j: int| 0 <= j < nodes@.len() ==> annotated(arena.nodes@, arena.infos@, #[trigger] nodes@[j]),
            i <= nodes@.len(),
            view_all(positions@) == roots_positions(arena.nodes@, arena.infos@, nodes@.take(i as int)),
        decreases nodes@.len() - i,
    {
        assert(nodes@.take(i + 1).drop_last() =~= nodes@.take(i as int));
        change_positions_node(arena, nodes[i], &mut positions);
        i = i + 1;
    }
    assert(nodes@.take(i as int) =~= nodes@);
    positions
}

/// Two metadata tables that agree on every change kind.
pub open spec fn same_changes(a: Seq<SyntaxInfo>, b: Seq<SyntaxInfo>) -> bool {
    a.len() == b.len() && forall|i: int| 0 <= i < a.len() ==> (#[trigger] a[i]).change == b[i].change
}

proof fn lemma_node_positions_changes(nodes: Seq<Syntax>, a: Seq<SyntaxInfo>, b: Seq<SyntaxInfo>, n: usize)
    requires
        same_changes(a, b),
        n < a.len(),
    ensures
        node_positions(nodes, a, n) == node_positions(nodes, b, n),
    decreases n, children_of(nodes[n as int]).len() + 1,
{
    lemma_children_positions_changes(nodes, a, b, n, children_of(nodes[n as int]).len());
}

proof fn lemma_children_positions_changes(
    nodes: Seq<Syntax>,
    a: Seq<SyntaxInfo>,
    b: Seq<SyntaxInfo>,
    n: usize,
    k: nat,
)
    requires
        same_changes(a, b),
        n < a.len(),
    ensures
        children_positions(nodes, a, n, k) == children_positions(nodes, b, n, k),
    decreases n, k,
{
    if !(k == 0 || k > children_of(nodes[n as int]).len()) {
        lemma_children_positions_changes(nodes, a, b, n, (k - 1) as nat);
        let c = children_of(nodes[n as int])[k - 1];
        if c < n {
            lemma_node_positions_changes(nodes, a, b, c);
        }
    }
}

/// Matched positions depend on the trees and on the change kinds alone:
/// two metadata tables that agree on every change kind give the same
/// matched positions. The metadata pass keeps all change kinds, so running
/// it again, or twice, on the same trees leaves the result as it was.
pub proof fn lemma_positions_deterministic(
    nodes: Seq<Syntax>,
    a: Seq<SyntaxInfo>,
    b: Seq<SyntaxInfo>,
    roots: Seq<usize>,
)
    requires
        same_changes(a, b),
        forall|i: int| 0 <= i < roots.len() ==> #[trigger] roots[i] < a.len(),
    ensures
        roots_positions(nodes, a, roots) == roots_positions(nodes, b, roots),
    decreases roots.len(),
{
    if roots.len() > 0 {
        lemma_positions_deterministic(nodes, a, b, roots.drop_last());
        lemma_node_positions_changes(nodes, a, b, roots.last());
    }
}

} // verus!
