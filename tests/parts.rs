use code_minimap::boundary::merge;
use code_minimap::frame::cell_pattern;
use code_minimap::scale::row_index;
use code_minimap::{
    braille_glyph, line_boundary, scale, scale_frame, write_frame, write_to_string, Boundary,
    Minimap, Options, Scale,
};

fn span(begin: usize, end: usize) -> Boundary {
    Boundary { begin, end }
}

#[test]
fn boundary_of_plain_line() {
    assert_eq!(line_boundary("  a  b c"), span(2, 8));
    assert_eq!(line_boundary(" d efg  "), span(1, 6));
    assert_eq!(line_boundary("x"), span(0, 1));
}

#[test]
fn boundary_of_blank_line_is_empty() {
    assert_eq!(line_boundary(""), Boundary::empty());
    assert_eq!(line_boundary("   \t "), span(0, 0));
}

#[test]
fn boundary_counts_characters_not_bytes() {
    assert_eq!(line_boundary("  é x"), span(2, 5));
    assert_eq!(line_boundary("日本語"), span(0, 3));
}

#[test]
fn boundary_skips_tabs() {
    assert_eq!(line_boundary("\t\tab\t"), span(2, 4));
}

#[test]
fn glyph_table_follows_braille_dot_numbering() {
    assert_eq!(braille_glyph(0), '\u{2800}');
    assert_eq!(braille_glyph(0x01), '\u{2801}');
    assert_eq!(braille_glyph(0x08), '\u{2840}');
    assert_eq!(braille_glyph(0x10), '\u{2808}');
    assert_eq!(braille_glyph(0x80), '\u{2880}');
    assert_eq!(braille_glyph(0x0F), '⡇');
    assert_eq!(braille_glyph(0xA0), '⢐');
    assert_eq!(braille_glyph(0xFF), '\u{28FF}');
}

#[test]
fn scale_rounds_down() {
    assert_eq!(scale(10, Scale { num: 1, den: 3 }), 3);
    assert_eq!(scale(7, Scale { num: 3, den: 2 }), 10);
    assert_eq!(scale(5, Scale { num: 0, den: 9 }), 0);
    assert_eq!(scale(5, Scale { num: 1, den: 1 }), 5);
}

#[test]
fn scale_saturates_at_largest_position() {
    assert_eq!(scale(usize::MAX, Scale { num: 2, den: 1 }), usize::MAX);
}

#[test]
fn scale_needs_a_denominator() {
    assert_eq!(Scale::new(1, 0), None);
    assert_eq!(Scale::new(3, 4), Some(Scale { num: 3, den: 4 }));
    assert_eq!(Scale::one(), Scale { num: 1, den: 1 });
}

#[test]
fn scale_frame_scales_each_row() {
    let mut frame = [span(2, 8), span(1, 6), span(4, 8), span(0, 0)];
    scale_frame(&mut frame, Scale { num: 1, den: 2 });
    assert_eq!(frame, [span(1, 4), span(0, 3), span(2, 4), span(0, 0)]);
}

#[test]
fn write_frame_appends_one_line() {
    let mut out = String::from("x");
    let frame = [span(0, 1), span(0, 0), span(0, 0), span(0, 0)];
    write_frame(&mut out, &frame, None);
    assert_eq!(out, "x⠁\n");
    write_frame(&mut out, &frame, Some(3));
    assert_eq!(out, "x⠁\n⠁  \n");
}

#[test]
fn write_frame_of_empty_rows_is_an_empty_line() {
    let mut out = String::new();
    write_frame(&mut out, &[Boundary::empty(); 4], Some(0));
    assert_eq!(out, "\n");
}

#[test]
fn write_frame_literal_example() {
    let mut out = String::new();
    let frame = [span(2, 8), span(1, 6), span(4, 8), span(1, 3)];
    write_frame(&mut out, &frame, None);
    assert_eq!(out, "⢐⡛⠿⠭\n");
}

#[test]
fn minimap_writes_each_frame_once_it_settles() {
    let mut map = Minimap::new(Options::plain());
    let mut out = String::new();
    for line in ["a", "b", "c", "d"] {
        map.push_line(line, &mut out);
    }
    assert_eq!(out, "");
    map.push_line("e", &mut out);
    assert_eq!(out, "⡇\n");
    map.finish(&mut out);
    assert_eq!(out, "⡇\n⠁\n");
}

#[test]
fn minimap_line_by_line_matches_whole_text() {
    let text = "  a  b c\n d efg  \n    h  i\n jk\n\nfoo\n  bar";
    let half = Scale { num: 1, den: 2 };
    let options = Options { vscale: half, ..Options::plain() };
    let mut map = Minimap::new(options);
    let mut out = String::new();
    for line in text.lines() {
        map.push_line(line, &mut out);
    }
    map.finish(&mut out);
    let one = Scale::one();
    assert_eq!(out, write_to_string(text, one, half, None));
}

#[test]
fn minimap_without_lines_writes_nothing() {
    let map = Minimap::new(Options::plain());
    let mut out = String::new();
    map.finish(&mut out);
    assert_eq!(out, "");
}

#[test]
fn row_index_keeps_line_order() {
    for factor in [Scale { num: 0, den: 1 }, Scale { num: 1, den: 3 }, Scale { num: 5, den: 2 }] {
        let mut last = 0;
        for i in 0..50u64 {
            let row = row_index(i, factor);
            assert!(row >= last);
            last = row;
        }
    }
    assert_eq!(row_index(7, Scale { num: 1, den: 3 }), 2);
    assert_eq!(row_index(u64::MAX, Scale { num: u64::MAX, den: 1 }), u64::MAX as u128 * u64::MAX as u128);
}

#[test]
fn merge_covers_both_spans() {
    assert_eq!(merge(span(2, 8), span(1, 6)), span(1, 8));
    assert_eq!(merge(Boundary::empty(), span(4, 5)), span(4, 5));
    assert_eq!(merge(span(4, 5), Boundary::empty()), span(4, 5));
    assert_eq!(merge(Boundary::empty(), Boundary::empty()), Boundary::empty());
}

#[test]
fn cell_pattern_reads_rows_top_to_bottom() {
    let frame = [span(2, 8), span(1, 6), span(4, 8), span(1, 3)];
    assert_eq!(cell_pattern(&frame, 0), 0xA0);
    assert_eq!(cell_pattern(&frame, 2), 0x3B);
    assert_eq!(braille_glyph(cell_pattern(&frame, 2)), '⡛');
}

#[test]
fn boundary_holds_half_open_span() {
    let b = span(2, 4);
    assert!(!b.holds(1));
    assert!(b.holds(2));
    assert!(b.holds(3));
    assert!(!b.holds(4));
    assert!(!Boundary::empty().holds(0));
}
