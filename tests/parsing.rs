use pathflat::elements::{PathElementCommand, PathElementLabel};
use pathflat::lexer::{flag_value, scan_number, skip_separators, Span};
use pathflat::subpaths::{group_subpaths, parse_outline, PathOutline, SubPath};
use pathflat::syntax::{operand_count, parse_segments, smooth_reflects};
use pathflat::utils::{is_digit, is_number_part, is_separator};

fn chars(s: &str) -> Vec<char> {
    s.chars().collect()
}

fn text(s: &[char], sp: Span) -> String {
    s[sp.start..sp.end].iter().collect()
}

/// The text of each operand of each segment, with its command.
fn commands(src: &str) -> Vec<(PathElementLabel, bool, Vec<String>)> {
    let s = chars(src);
    let (nums, segs) = parse_segments(&s);
    segs.iter()
        .map(|g| {
            let ops = (g.first..g.first + g.count).map(|i| text(&s, nums[i])).collect();
            (g.command.label(), g.command.relative(), ops)
        })
        .collect()
}

fn strs(v: &[&str]) -> Vec<String> {
    v.iter().map(|x| x.to_string()).collect()
}

fn outline(src: &str) -> PathOutline {
    parse_outline(&chars(src))
}

#[test]
fn separators_are_white_space_and_commas() {
    assert!(is_separator(' '));
    assert!(is_separator('\t'));
    assert!(is_separator('\n'));
    assert!(is_separator(','));
    assert!(is_separator('\u{A0}'));
    assert!(!is_separator('a'));
    assert!(!is_separator('0'));
    assert!(!is_separator('.'));
}

#[test]
fn number_parts() {
    for c in ['+', '-', '.', '0', '5', '9'] {
        assert!(is_number_part(c));
    }
    for c in ['a', 'M', ',', ' ', 'e'] {
        assert!(!is_number_part(c));
    }
    assert!(is_digit('7'));
    assert!(!is_digit('x'));
}

#[test]
fn decodes_command_letters() {
    let table = [
        ('m', PathElementLabel::Move),
        ('l', PathElementLabel::Line),
        ('h', PathElementLabel::Horizontal),
        ('v', PathElementLabel::Vertical),
        ('c', PathElementLabel::CubicBezier),
        ('s', PathElementLabel::SmoothCubicBezier),
        ('q', PathElementLabel::QuadraticBezier),
        ('t', PathElementLabel::SmoothQuadraticBezier),
        ('a', PathElementLabel::Arc),
    ];
    for (c, label) in table {
        let lower = PathElementCommand::from_ch(c).unwrap();
        assert_eq!(lower.label(), label);
        assert!(lower.relative());
        let upper = PathElementCommand::from_ch(c.to_ascii_uppercase()).unwrap();
        assert_eq!(upper.label(), label);
        assert!(!upper.relative());
    }
}

#[test]
fn close_is_never_relative() {
    for c in ['z', 'Z'] {
        let cmd = PathElementCommand::from_ch(c).unwrap();
        assert_eq!(cmd.label(), PathElementLabel::End);
        assert!(!cmd.relative());
    }
}

#[test]
fn unknown_letters_are_refused() {
    for c in ['x', 'X', 'b', '1', ' ', 'é'] {
        assert_eq!(PathElementCommand::from_ch(c), None);
    }
}

#[test]
fn move_repeats_as_line() {
    let m = PathElementCommand::new(true, PathElementLabel::Move);
    let u = m.updated();
    assert_eq!(u.label(), PathElementLabel::Line);
    assert!(u.relative());
    let c = PathElementCommand::new(false, PathElementLabel::CubicBezier);
    assert_eq!(c.updated(), c);
}

#[test]
fn skips_separators() {
    let s = chars(" ,\t 5");
    assert_eq!(skip_separators(&s, 0), 4);
    assert_eq!(skip_separators(&s, 4), 4);
    assert_eq!(skip_separators(&chars("  "), 0), 2);
}

#[test]
fn scans_signed_decimals() {
    let s = chars("  -12.5.3");
    let sp = scan_number(&s, 0).unwrap();
    assert_eq!(text(&s, sp), "-12.5");
    let sp2 = scan_number(&s, sp.end).unwrap();
    assert_eq!(text(&s, sp2), ".3");
    assert_eq!(scan_number(&s, sp2.end), None);
}

#[test]
fn sign_only_leads_a_number() {
    let s = chars("3-4+5");
    let a = scan_number(&s, 0).unwrap();
    assert_eq!(text(&s, a), "3");
    let b = scan_number(&s, a.end).unwrap();
    assert_eq!(text(&s, b), "-4");
    let c = scan_number(&s, b.end).unwrap();
    assert_eq!(text(&s, c), "+5");
}

#[test]
fn a_number_needs_a_digit() {
    for src in [".", "+", "-.", " , x", ""] {
        assert_eq!(scan_number(&chars(src), 0), None);
    }
    assert_eq!(scan_number(&chars("1."), 0), Some(Span { start: 0, end: 2 }));
}

#[test]
fn reads_arc_flags() {
    let flag = |src: &str| {
        let s = chars(src);
        flag_value(&s, Span { start: 0, end: s.len() })
    };
    assert_eq!(flag("0"), Some(false));
    assert_eq!(flag("-0"), Some(false));
    assert_eq!(flag("0.000"), Some(false));
    assert_eq!(flag("1"), Some(true));
    assert_eq!(flag("+1"), Some(true));
    assert_eq!(flag("001.00"), Some(true));
    assert_eq!(flag("1."), Some(true));
    assert_eq!(flag("-1"), None);
    assert_eq!(flag("10"), None);
    assert_eq!(flag("0.1"), None);
    assert_eq!(flag("2"), None);
    assert_eq!(flag("1.5"), None);
}

#[test]
fn operand_counts() {
    assert_eq!(operand_count(PathElementLabel::Move), 2);
    assert_eq!(operand_count(PathElementLabel::Horizontal), 1);
    assert_eq!(operand_count(PathElementLabel::CubicBezier), 6);
    assert_eq!(operand_count(PathElementLabel::SmoothCubicBezier), 4);
    assert_eq!(operand_count(PathElementLabel::Arc), 7);
    assert_eq!(operand_count(PathElementLabel::End), 0);
}

#[test]
fn smooth_curves_reflect_matching_degree() {
    assert!(smooth_reflects(Some(PathElementLabel::CubicBezier), PathElementLabel::SmoothCubicBezier));
    assert!(smooth_reflects(Some(PathElementLabel::SmoothCubicBezier), PathElementLabel::SmoothCubicBezier));
    assert!(smooth_reflects(Some(PathElementLabel::QuadraticBezier), PathElementLabel::SmoothQuadraticBezier));
    assert!(smooth_reflects(Some(PathElementLabel::SmoothQuadraticBezier), PathElementLabel::SmoothQuadraticBezier));
    assert!(!smooth_reflects(Some(PathElementLabel::QuadraticBezier), PathElementLabel::SmoothCubicBezier));
    assert!(!smooth_reflects(Some(PathElementLabel::CubicBezier), PathElementLabel::SmoothQuadraticBezier));
    assert!(!smooth_reflects(Some(PathElementLabel::Line), PathElementLabel::SmoothCubicBezier));
    assert!(!smooth_reflects(None, PathElementLabel::SmoothQuadraticBezier));
    assert!(!smooth_reflects(Some(PathElementLabel::CubicBezier), PathElementLabel::CubicBezier));
}

#[test]
fn move_then_line() {
    let c = commands("M0,0 L10,10");
    assert_eq!(
        c,
        vec![
            (PathElementLabel::Move, false, strs(&["0", "0"])),
            (PathElementLabel::Line, false, strs(&["10", "10"])),
        ]
    );
    let o = outline("M0,0 L10,10");
    assert_eq!(o.subpaths, vec![SubPath { closed: false, seeded: false, first: 0, end: 2 }]);
}

#[test]
fn closed_square() {
    let o = outline("M0,0 L10,0 L10,10 Z");
    assert_eq!(o.segments.len(), 4);
    assert_eq!(o.segments[3].command.label(), PathElementLabel::End);
    assert_eq!(o.subpaths, vec![SubPath { closed: true, seeded: false, first: 0, end: 3 }]);
}

#[test]
fn cubic_curve_operands() {
    let c = commands("M0,0 C0,10 10,10 10,0");
    assert_eq!(c.len(), 2);
    assert_eq!(c[1], (PathElementLabel::CubicBezier, false, strs(&["0", "10", "10", "10", "10", "0"])));
}

#[test]
fn horizontal_and_vertical_take_one_number() {
    let c = commands("M0,0 H10 V10");
    assert_eq!(
        c,
        vec![
            (PathElementLabel::Move, false, strs(&["0", "0"])),
            (PathElementLabel::Horizontal, false, strs(&["10"])),
            (PathElementLabel::Vertical, false, strs(&["10"])),
        ]
    );
}

#[test]
fn unknown_command_discards_the_rest() {
    let o = outline("M0,0 L10,10 X5,5");
    assert_eq!(o.segments.len(), 2);
    assert_eq!(o.numbers.len(), 4);
    assert_eq!(o.subpaths, vec![SubPath { closed: false, seeded: false, first: 0, end: 2 }]);
}

#[test]
fn smooth_quadratic_reflects_previous_control() {
    let o = outline("M0,0 Q10,0 10,10 T20,10");
    assert_eq!(o.segments.len(), 3);
    assert_eq!(o.segments[2].command.label(), PathElementLabel::SmoothQuadraticBezier);
    assert!(o.segments[2].reflect);
    assert!(!o.segments[1].reflect);
}

#[test]
fn smooth_after_other_command_does_not_reflect() {
    let o = outline("M0,0 L5,5 S10,0 10,10");
    assert!(!o.segments[2].reflect);
    let o = outline("M0,0 C1,1 2,2 3,3 S10,0 10,10 s1,1 2,2");
    assert!(o.segments[2].reflect);
    assert!(o.segments[3].reflect);
}

#[test]
fn numbers_repeat_the_command() {
    let c = commands("M1 2 3 4 5 6");
    assert_eq!(
        c,
        vec![
            (PathElementLabel::Move, false, strs(&["1", "2"])),
            (PathElementLabel::Line, false, strs(&["3", "4"])),
            (PathElementLabel::Line, false, strs(&["5", "6"])),
        ]
    );
    let c = commands("m1-2-3.5.5");
    assert_eq!(
        c,
        vec![
            (PathElementLabel::Move, true, strs(&["1", "-2"])),
            (PathElementLabel::Line, true, strs(&["-3.5", ".5"])),
        ]
    );
}

#[test]
fn arc_flags_are_read() {
    let o = outline("M0,0 A5,5 0 1,0 10,0");
    assert_eq!(o.segments.len(), 2);
    assert!(o.segments[1].large);
    assert!(!o.segments[1].sweep);
    assert_eq!(o.segments[1].count, 7);
    let o = outline("M0,0 a5 5 30 0 1 10 0");
    assert!(!o.segments[1].large);
    assert!(o.segments[1].sweep);
    assert!(o.segments[1].command.relative());
}

#[test]
fn bad_arc_flag_ends_parsing() {
    let o = outline("M0,0 A5,5 0 2,0 10,0 L1,1");
    assert_eq!(o.segments.len(), 1);
    assert_eq!(o.numbers.len(), 2);
}

#[test]
fn missing_operand_ends_parsing() {
    let o = outline("M0,0 L10");
    assert_eq!(o.segments.len(), 1);
    assert_eq!(o.numbers.len(), 2);
    let o = outline("M0,0 L10,. L2,2");
    assert_eq!(o.segments.len(), 1);
}

#[test]
fn number_after_close_ends_parsing() {
    let o = outline("M0,0 L1,1 Z 5,5");
    assert_eq!(o.segments.len(), 3);
    assert_eq!(o.subpaths, vec![SubPath { closed: true, seeded: false, first: 0, end: 2 }]);
}

#[test]
fn number_before_any_command_ends_parsing() {
    let o = outline("10,10 L1,1");
    assert!(o.segments.is_empty());
    assert!(o.subpaths.is_empty());
}

#[test]
fn empty_text_has_no_subpaths() {
    let o = outline("");
    assert!(o.numbers.is_empty());
    assert!(o.segments.is_empty());
    assert!(o.subpaths.is_empty());
    let o = outline(" , ");
    assert!(o.subpaths.is_empty());
}

#[test]
fn each_move_starts_a_subpath() {
    let o = outline("M0,0 L1,1 M5,5 L6,6 M9,9");
    assert_eq!(
        o.subpaths,
        vec![
            SubPath { closed: false, seeded: false, first: 0, end: 2 },
            SubPath { closed: false, seeded: false, first: 2, end: 4 },
            SubPath { closed: false, seeded: false, first: 4, end: 5 },
        ]
    );
}

#[test]
fn drawing_after_close_starts_a_seeded_subpath() {
    let o = outline("M0,0 L1,1 Z L2,2");
    assert_eq!(
        o.subpaths,
        vec![
            SubPath { closed: true, seeded: false, first: 0, end: 2 },
            SubPath { closed: false, seeded: true, first: 3, end: 4 },
        ]
    );
}

#[test]
fn close_without_subpath_is_ignored() {
    let o = outline("Z z M0,0 L1,1");
    assert_eq!(o.segments.len(), 4);
    assert_eq!(o.subpaths, vec![SubPath { closed: false, seeded: false, first: 2, end: 4 }]);
}

#[test]
fn groups_given_segments() {
    let s = chars("M0,0 L1,1 Z Z");
    let (_, segs) = parse_segments(&s);
    assert_eq!(segs.len(), 4);
    assert_eq!(group_subpaths(&segs), vec![SubPath { closed: true, seeded: false, first: 0, end: 2 }]);
}

#[test]
fn operands_follow_one_another() {
    let o = outline("M0,0 C1,1 2,2 3,3 H4 Z L5,5 A1 1 0 0 1 9 9");
    let mut next = 0;
    for g in &o.segments {
        assert_eq!(g.first, next);
        assert_eq!(g.count, operand_count(g.command.label()));
        next = g.first + g.count;
    }
    assert_eq!(next, o.numbers.len());
    assert_eq!(o.numbers.len(), 2 + 6 + 1 + 2 + 7);
}

#[test]
fn subpaths_split_at_moves_and_closes() {
    let o = outline("L1,1 M0,0 L1,1 z M2,2 Z M3,3");
    assert_eq!(
        o.subpaths,
        vec![
            SubPath { closed: false, seeded: true, first: 0, end: 1 },
            SubPath { closed: true, seeded: false, first: 1, end: 3 },
            SubPath { closed: true, seeded: false, first: 4, end: 5 },
            SubPath { closed: false, seeded: false, first: 6, end: 7 },
        ]
    );
}
