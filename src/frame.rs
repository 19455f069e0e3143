//! Frames: four boundaries, top to bottom, that become one line of glyphs.
use vstd::prelude::*;

use crate::boundary::{empty_boundary, Boundary};
use crate::glyph::{braille_code, braille_glyph};
use crate::scale::{lemma_scaled_monotonic_in_factor, scale, scaled, Scale};

verus! {

/// Relies on `String::push`: it appends the character.
pub assume_specification[ String::push ](s: &mut String, ch: char)
    ensures
        final(s)@ == old(s)@.push(ch),
;

/// 1 if position `x` lies in `b`, else 0.
pub open spec fn dot(b: Boundary, x: int) -> nat {
    if b.contains(x) {
        1
    } else {
        0
    }
}

/// The dot pattern of the cell whose left column is position `p`: bit `r` is
/// set when row `r` holds `p`, bit `4 + r` when row `r` holds `p + 1`.
pub open spec fn dot_pattern(f: Seq<Boundary>, p: int) -> u8 {
    (dot(f[0], p) + 2 * dot(f[1], p) + 4 * dot(f[2], p) + 8 * dot(f[3], p) + 16 * dot(f[0], p + 1)
        + 32 * dot(f[1], p + 1) + 64 * dot(f[2], p + 1) + 128 * dot(f[3], p + 1)) as u8
}

/// The largest end among the four rows.
pub open spec fn max_end(f: Seq<Boundary>) -> usize {
    let e01 = if f[0].end >= f[1].end { f[0].end } else { f[1].end };
    let e23 = if f[2].end >= f[3].end { f[2].end } else { f[3].end };
    if e01 >= e23 { e01 } else { e23 }
}

/// The number of glyphs a frame takes: one for each pair of positions below `max_end`.
pub open spec fn glyph_count(f: Seq<Boundary>) -> nat {
    ((max_end(f) + 1) / 2) as nat
}

/// The glyphs of a frame, left to right.
pub open spec fn glyph_line(f: Seq<Boundary>) -> Seq<char> {
    Seq::new(glyph_count(f), |j: int| braille_code(dot_pattern(f, 2 * j)) as char)
}

/// `line`, followed by spaces up to `padding` characters when it is shorter.
pub open spec fn pad_line(line: Seq<char>, padding: Option<usize>) -> Seq<char> {
    match padding {
        Some(w) => if line.len() < w {
            line + Seq::new((w - line.len()) as nat, |_j: int| ' ')
        } else {
            line
        },
        None => line,
    }
}

/// The output line of a frame, with its line break.
pub open spec fn frame_text(f: Seq<Boundary>, padding: Option<usize>) -> Seq<char> {
    pad_line(glyph_line(f), padding).push('\n')
}

/// A boundary with both ends scaled by `factor`.
pub open spec fn scale_bounds(b: Boundary, factor: Scale) -> Boundary {
    Boundary { begin: scaled(b.begin as nat, factor), end: scaled(b.end as nat, factor) }
}

/// The rows of a frame, each scaled by `factor`.
pub open spec fn scaled_rows(f: Seq<Boundary>, factor: Scale) -> Seq<Boundary> {
    f.map_values(|b: Boundary| scale_bounds(b, factor))
}

/// A larger horizontal scale never makes a frame's line narrower: the largest
/// scaled end, and with it the number of glyphs, can only grow.
pub proof fn lemma_width_monotonic_in_hscale(f: Seq<Boundary>, a: Scale, b: Scale)
    requires
        f.len() == 4,
        a.wf(),
        b.wf(),
        a.at_most(b),
    ensures
        max_end(scaled_rows(f, a)) <= max_end(scaled_rows(f, b)),
        glyph_count(scaled_rows(f, a)) <= glyph_count(scaled_rows(f, b)),
{
    lemma_scaled_monotonic_in_factor(f[0].end as nat, a, b);
    lemma_scaled_monotonic_in_factor(f[1].end as nat, a, b);
    lemma_scaled_monotonic_in_factor(f[2].end as nat, a, b);
    lemma_scaled_monotonic_in_factor(f[3].end as nat, a, b);
}

/// An empty row stays empty under any scale and raises no dot.
pub proof fn lemma_empty_row_has_no_dots(factor: Scale, x: int)
    requires
        factor.wf(),
    ensures
        scale_bounds(empty_boundary(), factor) == empty_boundary(),
        dot(empty_boundary(), x) == 0,
{
}

/// Scales each row of `frame` by `factor`.
pub fn scale_frame(frame: &mut [Boundary; 4], factor: Scale)
    requires
        factor.wf(),
    ensures
        final(frame)@ == scaled_rows(old(frame)@, factor),
{
    let mut i: usize = 0;
    while i < 4
        invariant
            factor.wf(),
            0 <= i <= 4,
            frame@.len() == 4,
            forall|k: int| 0 <= k < i ==> frame@[k] == scale_bounds(old(frame)@[k], factor),
            forall|k: int| i <= k < 4 ==> frame@[k] == old(frame)@[k],
        decreases 4 - i,
    {
        let b = frame[i];
        frame[i] = Boundary { begin: scale(b.begin, factor), end: scale(b.end, factor) };
        i = i + 1;
    }
    assert(frame@ =~= scaled_rows(old(frame)@, factor));
}

/// The dot pattern of the cell whose left column is position `p`.
pub fn cell_pattern(frame: &[Boundary; 4], p: usize) -> (r: u8)
    requires
        p < usize::MAX,
    ensures
        r == dot_pattern(frame@, p as int),
{
    let mut r: u8 = 0;
    if frame[0].holds(p) {
        r = r + 1;
    }
    if frame[1].holds(p) {
        r = r + 2;
    }
    if frame[2].holds(p) {
        r = r + 4;
    }
    if frame[3].holds(p) {
        r = r + 8;
    }
    if frame[0].holds(p + 1) {
        r = r + 16;
    }
    if frame[1].holds(p + 1) {
        r = r + 32;
    }
    if frame[2].holds(p + 1) {
        r = r + 64;
    }
    if frame[3].holds(p + 1) {
        r = r + 128;
    }
    r
}

/// Writes the line of `frame` to `out`: one Braille glyph for each pair of
/// positions up to the largest end among its rows, then spaces up to
/// `padding` characters, then a line break.
pub fn write_frame(out: &mut String, frame: &[Boundary; 4], padding: Option<usize>)
    ensures
        final(out)@ == old(out)@ + frame_text(frame@, padding),
{
    let e01 = if frame[0].end >= frame[1].end { frame[0].end } else { frame[1].end };
    let e23 = if frame[2].end >= frame[3].end { frame[2].end } else { frame[3].end };
    let end = if e01 >= e23 { e01 } else { e23 };
    let count = end / 2 + end % 2;
    let ghost start = out@;
    let ghost line = glyph_line(frame@);
    assert(count == line.len());
    let mut j: usize = 0;
    while j < count
        invariant
            count == line.len(),
            line == glyph_line(frame@),
            count == end / 2 + end % 2,
            j <= count,
            out@ == start + line.take(j as int),
        decreases count - j,
    {
        let c = braille_glyph(cell_pattern(frame, 2 * j));
        out.push(c);
        assert(line.take(j + 1) =~= line.take(j as int).push(c));
        j = j + 1;
    }
    assert(line.take(count as int) =~= line);
    let mut n: usize = count;
    if let Some(w) = padding {
        while n < w
            invariant
                count <= n,
                n <= w || n == count,
                out@ == start + line + Seq::new((n - count) as nat, |_j: int| ' '),
            decreases w - n,
        {
            out.push(' ');
            assert(Seq::new((n + 1 - count) as nat, |_j: int| ' ') =~= Seq::new(
                (n - count) as nat,
                |_j: int| ' ',
            ).push(' '));
            n = n + 1;
        }
    }
    out.push('\n');
    proof {
        let padded = pad_line(line, padding);
        match padding {
            Some(w) => {
                if count < w {
                    assert(n == w);
                } else {
                    assert(n == count);
                    assert(Seq::new((n - count) as nat, |_j: int| ' ') =~= Seq::<char>::empty());
                    assert(line + Seq::<char>::empty() =~= line);
                }
            },
            None => {
                assert(Seq::new((n - count) as nat, |_j: int| ' ') =~= Seq::<char>::empty());
                assert(line + Seq::<char>::empty() =~= line);
            },
        }
        assert(out@ =~= start + frame_text(frame@, padding));
    }
}

} // verus!
