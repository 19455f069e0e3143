use code_minimap::{render, write_to_string, Options, Scale};

fn one() -> Scale {
    Scale { num: 1, den: 1 }
}

fn plain(input: &str) -> String {
    write_to_string(input, one(), one(), None)
}

#[test]
fn test_write_to_string() {
    let cases = [
        ("", ""),
        ("a", "⠁"),
        ("aaaa\nbbbb\ncccc\ndddd", "⣿⣿"),
        ("aaa\n aa\n  a\n   a", "⠙⢇"),
        ("  a  b c\n d efg  \n    h  i\n jk", "⢐⡛⠿⠭"),
    ];
    for (input, expected) in cases {
        let actual = plain(input);
        assert_eq!(expected, actual.trim());
    }
}

#[test]
fn empty_input_gives_no_lines() {
    assert_eq!(plain(""), "");
}

#[test]
fn single_character_gives_one_glyph() {
    assert_eq!(plain("a"), "\u{2801}\n");
}

#[test]
fn four_full_lines_give_full_cells() {
    assert_eq!(plain("aaaa\nbbbb\ncccc\ndddd"), "\u{28FF}\u{28FF}\n");
    assert_eq!(plain("aaaaaa\nbbbbbb\ncccccc\ndddddd"), "⣿⣿⣿\n");
}

#[test]
fn odd_width_ends_with_half_cell() {
    assert_eq!(plain("aaaaa\nbbbbb\nccccc\nddddd"), "⣿⣿⡇\n");
}

#[test]
fn literal_example() {
    assert_eq!(plain("  a  b c\n d efg  \n    h  i\n jk"), "⢐⡛⠿⠭\n");
}

#[test]
fn output_depends_only_on_boundaries() {
    let a = plain("  a  b c\n d efg  \n    h  i\n jk");
    let b = plain("  xxxxxx\n yyyyy  \n    zzzz\n ww");
    assert_eq!(a, b);
    assert_eq!(a, plain("  a  b c\n d efg  \n    h  i\n jk"));
}

#[test]
fn partial_frame_is_padded_with_empty_rows() {
    assert_eq!(plain("a\nb\nc\nd\ne"), "⡇\n⠁\n");
    assert_eq!(plain("a\nb\nc\nd\ne\nf"), "⡇\n⠃\n");
}

#[test]
fn whitespace_only_lines_show_no_dots() {
    assert_eq!(plain("   "), "\n");
    assert_eq!(plain("a\n \t \nb"), "⠅\n");
}

#[test]
fn padding_fills_with_spaces() {
    assert_eq!(write_to_string("a", one(), one(), Some(3)), "⠁  \n");
    assert_eq!(write_to_string("aaaaaa", one(), one(), Some(2)), "⠉⠉⠉\n");
    assert_eq!(write_to_string("", one(), one(), Some(4)), "");
}

#[test]
fn vertical_scale_zero_makes_one_group() {
    let zero = Scale { num: 0, den: 1 };
    assert_eq!(write_to_string("ab\n   c\nd", one(), zero, None), "⠉⠉\n");
}

#[test]
fn vertical_scale_half_joins_pairs_of_lines() {
    let half = Scale { num: 1, den: 2 };
    assert_eq!(write_to_string("a\nb\nc\nd", one(), half, None), "⠃\n");
    assert_eq!(write_to_string("a\n  b\nc\nd", one(), half, None), "⠋⠁\n");
}

#[test]
fn horizontal_scale_shrinks_and_stretches() {
    let half = Scale { num: 1, den: 2 };
    let two = Scale { num: 2, den: 1 };
    assert_eq!(write_to_string("aaaa", half, one(), None), "⠉\n");
    assert_eq!(write_to_string("a", two, one(), None), "⠉\n");
}

#[test]
fn horizontal_scale_never_narrows_output() {
    let input = "    a\n  bb\nccccccc";
    let mut last = 0;
    for num in 0..8u64 {
        let out = write_to_string(input, Scale { num, den: 2 }, one(), None);
        let width = out.trim_end_matches('\n').chars().count();
        assert!(width >= last);
        last = width;
    }
    assert_eq!(last, 12);
}

#[test]
fn carriage_returns_before_line_breaks_are_dropped() {
    assert_eq!(plain("a\r\nb\r\n"), "⠃\n");
    assert_eq!(plain("a\r\nb\r\n"), plain("a\nb"));
}

#[test]
fn positions_count_characters() {
    assert_eq!(plain("ééé\n"), plain("xxx"));
}

#[test]
fn line_range_selects_lines() {
    let options = Options {
        hscale: one(),
        vscale: one(),
        padding: None,
        first_line: Some(2),
        last_line: Some(2),
    };
    assert_eq!(render("a\nbb\nccc", options), "⠉\n");
    let from_second = Options { last_line: None, ..options };
    assert_eq!(render("a\nbb\nccc", from_second), "⠛⠂\n");
}

#[test]
fn inverted_line_range_gives_no_lines() {
    let options = Options {
        hscale: one(),
        vscale: one(),
        padding: None,
        first_line: Some(3),
        last_line: Some(1),
    };
    assert_eq!(render("a\nbb\nccc", options), "");
}

#[test]
fn plain_options_render_like_write_to_string() {
    let input = "fn main() {\n    println!();\n}\n";
    assert_eq!(render(input, Options::plain()), plain(input));
}
