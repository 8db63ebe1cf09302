use difftastic::matching::{MatchKind, MatchedPos};
use difftastic::positions::{LineNumber, SingleLineSpan};
use difftastic::style::{
    apply, apply_colors, apply_line, color_positions, header, line_segments, split_and_apply,
    split_string, Paint, Segment, Style, TextColor,
};
use difftastic::syntax::{AtomKind, TokenKind};

fn span(line: usize, start_col: usize, end_col: usize) -> SingleLineSpan {
    SingleLineSpan { line: LineNumber(line), start_col, end_col }
}

fn plain(fg: TextColor) -> Style {
    Style { foreground: fg, background: None, bold: false, dimmed: false }
}

/// Removes terminal style sequences.
fn strip(s: &str) -> String {
    let mut res = String::new();
    let mut chars = s.chars();
    while let Some(c) = chars.next() {
        if c == '\x1b' {
            for d in chars.by_ref() {
                if d == 'm' {
                    break;
                }
            }
        } else {
            res.push(c);
        }
    }
    res
}

#[test]
fn split_string_pads_last_chunk() {
    assert_eq!(split_string("fooba", 3), vec!["foo", "ba "]);
    assert_eq!(split_string("foobar", 3), vec!["foo", "bar"]);
    assert_eq!(split_string("", 2), vec!["  "]);
    assert_eq!(split_string("é€x", 2), vec!["é€", "x "]);
}

#[test]
fn segments_cover_the_line() {
    let st = plain(TextColor::Red);
    let segs = line_segments(&[(span(0, 2, 4), st), (span(0, 5, 20), st)], 8);
    assert_eq!(
        segs,
        vec![
            Segment { start: 0, end: 2, paint: Paint::Dimmed },
            Segment { start: 2, end: 4, paint: Paint::Styled(st) },
            Segment { start: 4, end: 5, paint: Paint::Dimmed },
            Segment { start: 5, end: 8, paint: Paint::Styled(st) },
        ]
    );
    let total: usize = segs.iter().map(|s| s.end - s.start).sum();
    assert_eq!(total, 8);
}

#[test]
fn segments_without_styles_are_uncovered() {
    assert_eq!(line_segments(&[], 3), vec![Segment { start: 0, end: 3, paint: Paint::Uncovered }]);
    let st = plain(TextColor::Green);
    assert_eq!(
        line_segments(&[(span(0, 9, 12), st)], 3),
        vec![Segment { start: 0, end: 3, paint: Paint::Dimmed }]
    );
}

#[test]
fn apply_line_keeps_every_character() {
    let st = plain(TextColor::Green);
    let out = apply_line("héllo wörld", &[(span(0, 0, 5), st), (span(0, 6, 30), st)]);
    assert_eq!(strip(&out), "héllo wörld");
    assert_eq!(strip(&apply_line("abc", &[])), "abc");
}

#[test]
fn split_and_apply_wraps_and_pads() {
    let st = plain(TextColor::Red);
    let parts = split_and_apply("abcdefg", 3, &[(span(0, 2, 4), st)]);
    let stripped: Vec<String> = parts.iter().map(|p| strip(p)).collect();
    assert_eq!(stripped, vec!["abc", "def", "g  "]);
}

#[test]
fn apply_groups_styles_by_line() {
    let st = plain(TextColor::White);
    let out = apply("ab\r\ncd\n", &[(span(1, 0, 1), st), (span(0, 0, 2), st)]);
    assert_eq!(strip(&out), "ab\ncd\n");
}

#[test]
fn color_positions_policy() {
    let positions = vec![
        MatchedPos {
            kind: MatchKind::Unchanged {
                highlight: TokenKind::Atom(AtomKind::Keyword),
                self_pos: (vec![span(0, 0, 2)], vec![]),
                opposite_pos: (vec![span(0, 0, 2)], vec![]),
            },
            pos: span(0, 0, 2),
        },
        MatchedPos { kind: MatchKind::Novel { highlight: TokenKind::Delimiter }, pos: span(0, 3, 4) },
        MatchedPos { kind: MatchKind::ChangedCommentPart {}, pos: span(1, 0, 3) },
        MatchedPos {
            kind: MatchKind::UnchangedCommentPart { self_pos: span(1, 4, 5), opposite_pos: vec![] },
            pos: span(1, 4, 5),
        },
    ];
    let lhs = color_positions(true, &positions);
    assert_eq!(lhs[0].1, Style { foreground: TextColor::White, background: None, bold: true, dimmed: false });
    assert_eq!(lhs[1].1, plain(TextColor::BrightRed));
    assert_eq!(lhs[2].1, plain(TextColor::BrightRed));
    assert_eq!(lhs[3].1, plain(TextColor::Red));
    let rhs = color_positions(false, &positions);
    assert_eq!(rhs[1].1, plain(TextColor::BrightGreen));
    assert_eq!(rhs[3].1, plain(TextColor::Green));
    assert_eq!(rhs[0].0, span(0, 0, 2));
    let out = apply_colors("if x\nabc d\n", true, &positions);
    assert_eq!(strip(&out), "if x\nabc d\n");
}

#[test]
fn header_shows_hunk_numbers() {
    let out = strip(&header("foo.rs", 3, 12, "Rust"));
    assert_eq!(out, "foo.rs --- 3/12 --- Rust");
}

#[test]
fn styles_reach_the_terminal_when_colours_are_on() {
    colored::control::set_override(true);
    let st = Style { foreground: TextColor::BrightGreen, background: None, bold: true, dimmed: false };
    let out = apply_line("abc", &[(span(0, 0, 1), st)]);
    assert!(out.contains('\x1b'));
    assert_eq!(strip(&out), "abc");
    let uncovered = apply_line("abc", &[]);
    assert!(uncovered.starts_with('\x1b'));
    assert!(header("x.rs", 1, 2, "Rust").starts_with('\x1b'));
    colored::control::unset_override();
}
