use difftastic::matching::{change_positions, split_comment_words, MatchKind, MatchedPos};
use difftastic::metadata::init_info;
use difftastic::positions::{dbg_pos, LineNumber, SingleLineSpan};
use difftastic::syntax::{
    zip_pad_shorter, zip_repeat_shorter, Arena, AtomKind, ChangeKind, Syntax, TokenKind,
};
use difftastic::words::split_words;

fn span(line: usize, start_col: usize, end_col: usize) -> SingleLineSpan {
    SingleLineSpan { line: LineNumber(line), start_col, end_col }
}

#[test]
fn test_comment_and_atom_differ() {
    let pos = vec![span(0, 2, 3)];
    let mut arena = Arena::new();
    let comment = Syntax::new_atom(&mut arena, pos.clone(), "foo", AtomKind::Comment);
    let atom = Syntax::new_atom(&mut arena, pos, "foo", AtomKind::Normal);
    init_info(&mut arena, &[comment], &[atom]);
    assert!(!Syntax::eq(&arena, comment, atom));
    assert_ne!(Syntax::content_id(&arena, comment), Syntax::content_id(&arena, atom));
}

#[test]
fn test_multiline_comment_ignores_leading_whitespace() {
    let pos = vec![span(0, 2, 3)];
    let mut arena = Arena::new();
    let x = Syntax::new_atom(&mut arena, pos.clone(), "foo\nbar", AtomKind::Comment);
    let y = Syntax::new_atom(&mut arena, pos, "foo\n    bar", AtomKind::Comment);
    init_info(&mut arena, &[x], &[y]);
    assert!(Syntax::eq(&arena, x, y));
}

#[test]
fn multiline_atoms_that_are_not_comments_keep_indentation() {
    let pos = vec![span(0, 2, 3)];
    let mut arena = Arena::new();
    let x = Syntax::new_atom(&mut arena, pos.clone(), "foo\nbar", AtomKind::Normal);
    let y = Syntax::new_atom(&mut arena, pos, "foo\n    bar", AtomKind::Normal);
    init_info(&mut arena, &[x], &[y]);
    assert!(!Syntax::eq(&arena, x, y));
}

#[test]
fn test_atom_equality_ignores_change() {
    let mut arena = Arena::new();
    let lhs = Syntax::new_atom(&mut arena, vec![span(1, 2, 3)], "foo", AtomKind::Normal);
    let rhs = Syntax::new_atom(&mut arena, vec![span(1, 2, 3)], "foo", AtomKind::Normal);
    Syntax::set_change(&mut arena, lhs, ChangeKind::Novel);
    init_info(&mut arena, &[lhs], &[rhs]);
    assert!(Syntax::eq(&arena, lhs, rhs));
    assert_eq!(Syntax::info(&arena, lhs).change, Some(ChangeKind::Novel));
    assert_eq!(Syntax::info(&arena, rhs).change, None);
}

#[test]
fn atom_equality_ignores_position() {
    let mut arena = Arena::new();
    let lhs = Syntax::new_atom(&mut arena, vec![span(1, 2, 5)], "foo", AtomKind::Keyword);
    let rhs = Syntax::new_atom(&mut arena, vec![span(7, 0, 3)], "foo", AtomKind::Keyword);
    let other = Syntax::new_atom(&mut arena, vec![span(8, 0, 3)], "bar", AtomKind::Keyword);
    init_info(&mut arena, &[lhs], &[rhs, other]);
    assert!(Syntax::eq(&arena, lhs, rhs));
    assert!(!Syntax::eq(&arena, lhs, other));
}

#[test]
fn test_split_comment_words_basic() {
    let content = "abc";
    let pos = span(0, 0, 3);
    let opposite_content = "def";
    let opposite_pos = span(0, 0, 3);
    let res = split_comment_words(content, pos, opposite_content, opposite_pos);
    assert_eq!(
        res,
        vec![MatchedPos { kind: MatchKind::ChangedCommentPart {}, pos: span(0, 0, 3) }]
    );
}

#[test]
fn split_comment_words_keeps_shared_words() {
    let res = split_comment_words("foo bar", span(0, 10, 17), "foo baz", span(5, 0, 7));
    assert_eq!(
        res,
        vec![
            MatchedPos {
                kind: MatchKind::UnchangedCommentPart {
                    self_pos: span(0, 10, 13),
                    opposite_pos: vec![span(5, 0, 3)],
                },
                pos: span(0, 10, 13),
            },
            MatchedPos {
                kind: MatchKind::UnchangedCommentPart {
                    self_pos: span(0, 13, 14),
                    opposite_pos: vec![span(5, 3, 4)],
                },
                pos: span(0, 13, 14),
            },
            MatchedPos { kind: MatchKind::ChangedCommentPart {}, pos: span(0, 14, 17) },
        ]
    );
}

#[test]
fn split_comment_words_across_lines() {
    let res = split_comment_words("a\nb", span(3, 4, 5), "a\nc", span(3, 4, 5));
    assert_eq!(
        res,
        vec![
            MatchedPos {
                kind: MatchKind::UnchangedCommentPart {
                    self_pos: span(3, 4, 5),
                    opposite_pos: vec![span(3, 4, 5)],
                },
                pos: span(3, 4, 5),
            },
            MatchedPos {
                kind: MatchKind::UnchangedCommentPart {
                    self_pos: span(3, 5, 6),
                    opposite_pos: vec![span(3, 5, 6)],
                },
                pos: span(3, 5, 6),
            },
            MatchedPos { kind: MatchKind::ChangedCommentPart {}, pos: span(4, 0, 1) },
        ]
    );
}

#[test]
fn test_split_words() {
    let s = "example.com";
    let res = split_words(s);
    assert_eq!(res, vec!["example", ".", "com"])
}

#[test]
fn test_split_words_punctuations() {
    let s = "example..";
    let res = split_words(s);
    assert_eq!(res, vec!["example", ".", "."])
}

#[test]
fn test_split_words_treats_newline_separately() {
    let s = "example.\ncom";
    let res = split_words(s);
    assert_eq!(res, vec!["example", ".", "\n", "com"])
}

#[test]
fn split_words_of_empty_text() {
    assert!(split_words("").is_empty());
    assert_eq!(split_words("a1 b2"), vec!["a1", " ", "b2"]);
}

/// Builds `(foo bar)` and returns the list and its two atoms.
fn small_list(arena: &mut Arena, line: usize) -> (usize, usize, usize) {
    let foo = Syntax::new_atom(arena, vec![span(line, 1, 4)], "foo", AtomKind::Normal);
    let bar = Syntax::new_atom(arena, vec![span(line, 5, 8)], "bar", AtomKind::Keyword);
    let list = Syntax::new_list(arena, "(", vec![span(line, 0, 1)], vec![foo, bar], ")", vec![span(line, 8, 9)]);
    (list, foo, bar)
}

#[test]
fn list_counts_descendants() {
    let mut arena = Arena::new();
    let (list, _, _) = small_list(&mut arena, 0);
    let outer = Syntax::new_list(&mut arena, "[", vec![span(0, 0, 0)], vec![list], "]", vec![span(0, 9, 9)]);
    match arena.node(outer) {
        Syntax::List { num_descendants, .. } => assert_eq!(*num_descendants, 3),
        Syntax::Atom { .. } => panic!("expected a list"),
    }
}

#[test]
fn unique_ids_are_distinct_and_content_ids_positive() {
    let mut arena = Arena::new();
    let (lhs, lfoo, lbar) = small_list(&mut arena, 0);
    let (rhs, rfoo, rbar) = small_list(&mut arena, 3);
    init_info(&mut arena, &[lhs], &[rhs]);
    let nodes = [lhs, lfoo, lbar, rhs, rfoo, rbar];
    let ids: Vec<u32> = nodes.iter().map(|n| Syntax::id(&arena, *n)).collect();
    assert_eq!(ids, vec![0, 1, 2, 3, 4, 5]);
    for n in nodes {
        assert!(Syntax::content_id(&arena, n) > 0);
    }
    assert!(Syntax::eq(&arena, lhs, rhs));
    assert!(Syntax::eq(&arena, lfoo, rfoo));
    assert!(!Syntax::eq(&arena, lfoo, lbar));
}

#[test]
fn metadata_links_and_depths() {
    let mut arena = Arena::new();
    let (lhs, foo, bar) = small_list(&mut arena, 0);
    let (rhs, _, _) = small_list(&mut arena, 3);
    init_info(&mut arena, &[lhs], &[rhs]);
    assert_eq!(Syntax::next(&arena, lhs), None);
    assert_eq!(Syntax::next(&arena, foo), Some(bar));
    assert_eq!(Syntax::next(&arena, bar), None);
    assert_eq!(Syntax::info(&arena, foo).prev, Some(lhs));
    assert_eq!(Syntax::info(&arena, bar).prev, Some(foo));
    assert_eq!(Syntax::info(&arena, bar).parent, Some(lhs));
    assert_eq!(Syntax::info(&arena, lhs).parent, None);
    assert_eq!(Syntax::num_ancestors(&arena, lhs), 0);
    assert_eq!(Syntax::num_ancestors(&arena, bar), 1);
    assert!(!Syntax::prev_is_contiguous(&arena, lhs));
    assert!(Syntax::prev_is_contiguous(&arena, foo));
    assert!(Syntax::prev_is_contiguous(&arena, bar));
}

#[test]
fn contiguity_across_lines() {
    let mut arena = Arena::new();
    let a = Syntax::new_atom(&mut arena, vec![span(0, 0, 1)], "a", AtomKind::Normal);
    let b = Syntax::new_atom(&mut arena, vec![span(2, 0, 1)], "b", AtomKind::Normal);
    let c = Syntax::new_atom(&mut arena, vec![span(2, 2, 3)], "c", AtomKind::Normal);
    init_info(&mut arena, &[a, b, c], &[]);
    assert!(!Syntax::prev_is_contiguous(&arena, b));
    assert!(Syntax::prev_is_contiguous(&arena, c));
}

#[test]
fn first_and_last_line() {
    let mut arena = Arena::new();
    let a = Syntax::new_atom(&mut arena, vec![span(1, 0, 3), span(2, 0, 2)], "a\nb", AtomKind::Comment);
    let e = Syntax::new_atom(&mut arena, vec![], "", AtomKind::Normal);
    assert_eq!(arena.node(a).first_line(), Some(LineNumber(1)));
    assert_eq!(arena.node(a).last_line(), Some(LineNumber(2)));
    assert_eq!(arena.node(e).first_line(), None);
    assert_eq!(arena.node(e).last_line(), None);
}

#[test]
fn set_change_deep_pairs_children() {
    let mut arena = Arena::new();
    let (lhs, lfoo, lbar) = small_list(&mut arena, 0);
    let (rhs, rfoo, rbar) = small_list(&mut arena, 3);
    Syntax::set_change_deep(&mut arena, lhs, ChangeKind::Unchanged(rhs));
    assert_eq!(Syntax::info(&arena, lhs).change, Some(ChangeKind::Unchanged(rhs)));
    assert_eq!(Syntax::info(&arena, lfoo).change, Some(ChangeKind::Unchanged(rfoo)));
    assert_eq!(Syntax::info(&arena, lbar).change, Some(ChangeKind::Unchanged(rbar)));
    Syntax::set_change_deep(&mut arena, rhs, ChangeKind::Novel);
    assert_eq!(Syntax::info(&arena, rfoo).change, Some(ChangeKind::Novel));
    assert_eq!(Syntax::info(&arena, rbar).change, Some(ChangeKind::Novel));
}

#[test]
fn change_positions_walks_lists_and_atoms() {
    let mut arena = Arena::new();
    let (lhs, _, _) = small_list(&mut arena, 0);
    let (rhs, _, _) = small_list(&mut arena, 3);
    init_info(&mut arena, &[lhs], &[rhs]);
    Syntax::set_change_deep(&mut arena, lhs, ChangeKind::Novel);
    let res = change_positions("(foo bar)", "(foo bar)", &arena, &[lhs]);
    let poss: Vec<SingleLineSpan> = res.iter().map(|m| m.pos).collect();
    assert_eq!(poss, vec![span(0, 0, 1), span(0, 1, 4), span(0, 5, 8), span(0, 8, 9)]);
    assert_eq!(res[0].kind, MatchKind::Novel { highlight: TokenKind::Delimiter });
    assert_eq!(res[2].kind, MatchKind::Novel { highlight: TokenKind::Atom(AtomKind::Keyword) });
    assert!(res.iter().all(|m| m.kind.is_change()));
}

#[test]
fn change_positions_is_deterministic() {
    let mut arena = Arena::new();
    let (lhs, _, _) = small_list(&mut arena, 0);
    let (rhs, _, _) = small_list(&mut arena, 3);
    init_info(&mut arena, &[lhs], &[rhs]);
    Syntax::set_change_deep(&mut arena, lhs, ChangeKind::Unchanged(rhs));
    let first = change_positions("(foo bar)", "", &arena, &[lhs]);
    init_info(&mut arena, &[lhs], &[rhs]);
    let second = change_positions("(foo bar)", "", &arena, &[lhs]);
    assert_eq!(first, second);
    assert_eq!(first.len(), 4);
    assert_eq!(first[1].kind.first_opposite_span(), Some(span(3, 1, 4)));
    assert!(!first[1].kind.is_change());
}

#[test]
fn replaced_comment_positions() {
    let mut arena = Arena::new();
    let l = Syntax::new_atom(&mut arena, vec![span(0, 0, 3)], "abc", AtomKind::Comment);
    let r = Syntax::new_atom(&mut arena, vec![span(0, 0, 3)], "def", AtomKind::Comment);
    init_info(&mut arena, &[l], &[r]);
    Syntax::set_change(&mut arena, l, ChangeKind::ReplacedComment(l, r));
    let res = change_positions("abc", "def", &arena, &[l]);
    assert_eq!(res, vec![MatchedPos { kind: MatchKind::ChangedCommentPart {}, pos: span(0, 0, 3) }]);
    assert_eq!(res[0].kind.first_opposite_span(), None);
}

#[test]
fn empty_spans_are_skipped() {
    let mut arena = Arena::new();
    let a = Syntax::new_atom(&mut arena, vec![span(0, 1, 1)], "", AtomKind::Normal);
    init_info(&mut arena, &[a], &[]);
    Syntax::set_change(&mut arena, a, ChangeKind::Novel);
    assert!(change_positions("", "", &arena, &[a]).is_empty());
}

#[test]
fn zip_helpers() {
    assert_eq!(
        zip_pad_shorter(&[1, 2, 3], &["a"]),
        vec![(Some(1), Some("a")), (Some(2), None), (Some(3), None)]
    );
    assert_eq!(zip_repeat_shorter(&[1, 2, 3], &["a", "b"]), vec![(1, "a"), (2, "b"), (3, "b")]);
    assert!(zip_repeat_shorter::<i32, i32>(&[], &[1]).is_empty());
}

#[test]
fn describes_spans() {
    assert_eq!(dbg_pos(&[]), "-");
    assert_eq!(dbg_pos(&[span(3, 4, 15)]), "3:4-15");
    assert_eq!(dbg_pos(&[span(3, 4, 15), span(4, 0, 2), span(7, 0, 9)]), "3:4-7:9");
}
