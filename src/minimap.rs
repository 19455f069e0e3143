//! The minimap: lines are grouped into rows by the vertical scale, rows are
//! batched four to a frame, and each frame becomes one line of glyphs.
use vstd::prelude::*;

use crate::boundary::{
    empty_boundary, lemma_line_bounds, line_boundary, line_bounds, merge, merge_bounds, white_space,
    Boundary,
};
use crate::frame::{
    dot, dot_pattern, frame_text, glyph_count, glyph_line, lemma_empty_row_has_no_dots,
    lemma_width_monotonic_in_hscale, max_end, pad_line, scale_bounds, scale_frame, scaled_rows,
    write_frame,
};
use crate::glyph::braille_offset;
use crate::scale::{lemma_scale_floor_unit, row_index, scale_floor, Scale};

verus! {

/// How a text is rendered.
#[derive(Clone, Copy, Debug, PartialEq, Eq, Structural)]
pub struct Options {
    /// Horizontal scale: how character positions map to dot columns.
    pub hscale: Scale,
    /// Vertical scale: how line indices map to dot rows.
    pub vscale: Scale,
    /// Width, in characters, up to which each output line is filled with spaces.
    pub padding: Option<usize>,
    /// First line to render, counted from 1; from the first line when `None`.
    pub first_line: Option<usize>,
    /// Last line to render, counted from 1; up to the last line when `None`.
    pub last_line: Option<usize>,
}

impl Options {
    /// Both scales have a positive denominator.
    pub open spec fn wf(self) -> bool {
        self.hscale.wf() && self.vscale.wf()
    }

    /// Both scales one, no padding, every line.
    pub fn plain() -> (r: Options)
        ensures
            r == (Options {
                hscale: Scale { num: 1, den: 1 },
                vscale: Scale { num: 1, den: 1 },
                padding: None,
                first_line: None,
                last_line: None,
            }),
    {
        Options {
            hscale: Scale::one(),
            vscale: Scale::one(),
            padding: None,
            first_line: None,
            last_line: None,
        }
    }
}

/// Whether the line numbered `n` (from 1) lies in the range.
pub open spec fn in_range(n: int, first: Option<usize>, last: Option<usize>) -> bool {
    &&& (first is None || first->0 <= n)
    &&& (last is None || n <= last->0)
}

/// The lines that the range of `o` selects, in order.
pub open spec fn selected_lines(lines: Seq<Seq<char>>, o: Options) -> Seq<Seq<char>>
    decreases lines.len(),
{
    if lines.len() == 0 {
        Seq::empty()
    } else {
        let before = selected_lines(lines.drop_last(), o);
        if in_range(lines.len() as int, o.first_line, o.last_line) {
            before.push(lines.last())
        } else {
            before
        }
    }
}

/// The rows of `lines` under the vertical scale `v`: the line with index `i`
/// goes to row `floor(i * v)`, consecutive lines of one row form a group, and
/// each group is reduced to the span that covers all its boundaries.
pub open spec fn groups(lines: Seq<Seq<char>>, v: Scale) -> Seq<Boundary>
    decreases lines.len(),
{
    if lines.len() == 0 {
        Seq::empty()
    } else {
        let n = lines.len() - 1;
        let before = groups(lines.drop_last(), v);
        let b = line_bounds(lines.last());
        if n > 0 && scale_floor(n as nat, v) == scale_floor((n - 1) as nat, v) {
            before.update(before.len() - 1, merge_bounds(before.last(), b))
        } else {
            before.push(b)
        }
    }
}

/// The rows of frame `j`: groups `4j` to `4j + 3`, empty past the last group.
pub open spec fn frame_rows(g: Seq<Boundary>, j: int) -> Seq<Boundary> {
    Seq::new(4, |r: int| if 4 * j + r < g.len() { g[4 * j + r] } else { empty_boundary() })
}

/// The number of frames that `n` groups fill.
pub open spec fn frame_count(n: nat) -> nat {
    (n + 3) / 4
}

/// The text of the first `k` frames of `g`.
pub open spec fn frames_text(g: Seq<Boundary>, k: nat, o: Options) -> Seq<char>
    decreases k,
{
    if k == 0 {
        Seq::empty()
    } else {
        frames_text(g, (k - 1) as nat, o) + frame_text(
            scaled_rows(frame_rows(g, k - 1), o.hscale),
            o.padding,
        )
    }
}

/// The minimap of `lines`: one line of glyphs for each frame.
pub open spec fn minimap_text(lines: Seq<Seq<char>>, o: Options) -> Seq<char> {
    let g = groups(selected_lines(lines, o), o.vscale);
    frames_text(g, frame_count(g.len()), o)
}

/// The number of frames whose groups are all closed: every frame but the one
/// that holds the last group, which a later line may still extend.
pub open spec fn closed_frames(n: nat) -> nat {
    if n == 0 {
        0
    } else {
        ((n - 1) / 4) as nat
    }
}

/// The frames of the selected lines `sel` that no later line can change.
pub open spec fn settled_frames(sel: Seq<Seq<char>>, o: Options) -> Seq<char> {
    let g = groups(sel, o.vscale);
    frames_text(g, closed_frames(g.len()), o)
}

/// The part of the minimap of `lines` that no later line can change.
pub open spec fn settled_text(lines: Seq<Seq<char>>, o: Options) -> Seq<char> {
    settled_frames(selected_lines(lines, o), o)
}

proof fn lemma_groups_len(lines: Seq<Seq<char>>, v: Scale)
    ensures
        groups(lines, v).len() <= lines.len(),
        lines.len() > 0 ==> groups(lines, v).len() > 0,
    decreases lines.len(),
{
    if lines.len() > 0 {
        lemma_groups_len(lines.drop_last(), v);
    }
}

proof fn lemma_selected_len(lines: Seq<Seq<char>>, o: Options)
    ensures
        selected_lines(lines, o).len() <= lines.len(),
    decreases lines.len(),
{
    if lines.len() > 0 {
        lemma_selected_len(lines.drop_last(), o);
    }
}

/// Frames that only read groups two sequences share are the same.
proof fn lemma_frames_text_agree(g1: Seq<Boundary>, g2: Seq<Boundary>, k: nat, o: Options)
    requires
        4 * k <= g1.len(),
        4 * k <= g2.len(),
        forall|i: int| 0 <= i < 4 * k ==> g1[i] == g2[i],
    ensures
        frames_text(g1, k, o) == frames_text(g2, k, o),
    decreases k,
{
    if k > 0 {
        lemma_frames_text_agree(g1, g2, (k - 1) as nat, o);
        assert(frame_rows(g1, k - 1) =~= frame_rows(g2, k - 1));
    }
}

/// What settles between the selected lines `sel` and `sel2`.
spec fn frame_text_between(sel: Seq<Seq<char>>, sel2: Seq<Seq<char>>, o: Options) -> Seq<char> {
    settled_frames(sel2, o).skip(settled_frames(sel, o).len() as int)
}

/// One more selected line only adds to the settled frames.
proof fn lemma_settled_prefix(sel: Seq<Seq<char>>, sel2: Seq<Seq<char>>, o: Options)
    requires
        sel2.drop_last() == sel,
        sel2.len() > 0,
    ensures
        settled_frames(sel, o).is_prefix_of(settled_frames(sel2, o)),
{
    let g = groups(sel, o.vscale);
    let g2 = groups(sel2, o.vscale);
    let n = sel2.len() - 1;
    if sel.len() == 0 {
        assert(settled_frames(sel, o) =~= Seq::<char>::empty());
        assert(settled_frames(sel2, o).take(0) =~= Seq::<char>::empty());
    } else if scale_floor(n as nat, o.vscale) == scale_floor((n - 1) as nat, o.vscale) {
        lemma_groups_len(sel, o.vscale);
        lemma_settled_when_extended(g, g2, o);
        assert(settled_frames(sel2, o).take(settled_frames(sel, o).len() as int) =~= settled_frames(sel, o));
    } else {
        lemma_groups_len(sel, o.vscale);
        lemma_settled_when_opened(g, line_bounds(sel2.last()), o);
        assert(settled_frames(sel2, o).take(settled_frames(sel, o).len() as int) =~= settled_frames(sel, o));
    }
}

/// A line that joins the open group changes no settled frame.
proof fn lemma_settled_when_extended(g: Seq<Boundary>, g2: Seq<Boundary>, o: Options)
    requires
        g.len() > 0,
        g2.len() == g.len(),
        forall|i: int| 0 <= i < g.len() - 1 ==> g2[i] == g[i],
    ensures
        frames_text(g2, closed_frames(g2.len()), o) == frames_text(g, closed_frames(g.len()), o),
{
    lemma_frames_text_agree(g, g2, closed_frames(g.len()), o);
}

/// A line that opens a group settles the frame of the previous group when
/// that group was the fourth of its frame.
proof fn lemma_settled_when_opened(g: Seq<Boundary>, b: Boundary, o: Options)
    requires
        g.len() > 0,
    ensures
        (g.len() - 1) % 4 < 3 ==> frames_text(g.push(b), closed_frames(g.len() + 1), o)
            == frames_text(g, closed_frames(g.len()), o),
        (g.len() - 1) % 4 == 3 ==> frames_text(g.push(b), closed_frames(g.len() + 1), o)
            == frames_text(g, closed_frames(g.len()), o) + frame_text(
            scaled_rows(frame_rows(g, closed_frames(g.len()) as int), o.hscale),
            o.padding,
        ),
{
    let g2 = g.push(b);
    let k = closed_frames(g.len());
    lemma_frames_text_agree(g, g2, k, o);
    if (g.len() - 1) % 4 == 3 {
        assert(closed_frames(g2.len()) == k + 1);
        assert(frame_rows(g2, k as int) =~= frame_rows(g, k as int));
    } else {
        assert(closed_frames(g2.len()) == k);
    }
}

/// Groups and the minimap depend on the lines only through their boundaries:
/// two inputs whose lines have the same boundaries, one for one, render alike.
pub proof fn lemma_depends_only_on_boundaries(l1: Seq<Seq<char>>, l2: Seq<Seq<char>>, o: Options)
    requires
        l1.len() == l2.len(),
        forall|i: int| 0 <= i < l1.len() ==> line_bounds(#[trigger] l1[i]) == line_bounds(l2[i]),
    ensures
        groups(selected_lines(l1, o), o.vscale) == groups(selected_lines(l2, o), o.vscale),
        minimap_text(l1, o) == minimap_text(l2, o),
{
    lemma_selected_same_bounds(l1, l2, o);
    lemma_groups_same_bounds(selected_lines(l1, o), selected_lines(l2, o), o.vscale);
}

proof fn lemma_selected_same_bounds(l1: Seq<Seq<char>>, l2: Seq<Seq<char>>, o: Options)
    requires
        l1.len() == l2.len(),
        forall|i: int| 0 <= i < l1.len() ==> line_bounds(#[trigger] l1[i]) == line_bounds(l2[i]),
    ensures
        selected_lines(l1, o).len() == selected_lines(l2, o).len(),
        forall|i: int|
            0 <= i < selected_lines(l1, o).len() ==> line_bounds(#[trigger] selected_lines(l1, o)[i])
                == line_bounds(selected_lines(l2, o)[i]),
    decreases l1.len(),
{
    if l1.len() > 0 {
        let init1 = l1.drop_last();
        let init2 = l2.drop_last();
        assert forall|i: int| 0 <= i < init1.len() implies line_bounds(#[trigger] init1[i]) == line_bounds(init2[i]) by {
            assert(init1[i] == l1[i]);
            assert(init2[i] == l2[i]);
        }
        lemma_selected_same_bounds(init1, init2, o);
        assert(line_bounds(l1.last()) == line_bounds(l2.last()));
    }
}

proof fn lemma_groups_same_bounds(s1: Seq<Seq<char>>, s2: Seq<Seq<char>>, v: Scale)
    requires
        s1.len() == s2.len(),
        forall|i: int| 0 <= i < s1.len() ==> line_bounds(#[trigger] s1[i]) == line_bounds(s2[i]),
    ensures
        groups(s1, v) == groups(s2, v),
    decreases s1.len(),
{
    if s1.len() > 0 {
        let init1 = s1.drop_last();
        let init2 = s2.drop_last();
        assert forall|i: int| 0 <= i < init1.len() implies line_bounds(#[trigger] init1[i]) == line_bounds(init2[i]) by {
            assert(init1[i] == s1[i]);
            assert(init2[i] == s2[i]);
        }
        lemma_groups_same_bounds(init1, init2, v);
        assert(line_bounds(s1.last()) == line_bounds(s2.last()));
    }
}

/// When the rows do not fill the last frame (`4k + r` rows, `0 < r < 4`),
/// the minimap has `k + 1` lines: `k` full frames, then a frame whose rows
/// past the `r`-th are empty and raise no dot.
pub proof fn lemma_last_frame_padded(lines: Seq<Seq<char>>, o: Options)
    requires
        o.wf(),
        groups(selected_lines(lines, o), o.vscale).len() % 4 != 0,
    ensures
        ({
            let g = groups(selected_lines(lines, o), o.vscale);
            let k = g.len() / 4;
            let r = g.len() % 4;
            let last = frame_rows(g, k as int);
            &&& frame_count(g.len()) == k + 1
            &&& forall|i: int| 0 <= i < r ==> #[trigger] last[i] == g[4 * k + i]
            &&& forall|i: int| r <= i < 4 ==> #[trigger] last[i] == empty_boundary()
            &&& forall|i: int, x: int|
                r <= i < 4 ==> #[trigger] dot(scaled_rows(last, o.hscale)[i], x) == 0
            &&& minimap_text(lines, o) == frames_text(g, k, o) + frame_text(
                scaled_rows(last, o.hscale),
                o.padding,
            )
        }),
{
    let g = groups(selected_lines(lines, o), o.vscale);
    let k = g.len() / 4;
    let last = frame_rows(g, k as int);
    assert forall|i: int, x: int|
        g.len() % 4 <= i < 4 implies #[trigger] dot(scaled_rows(last, o.hscale)[i], x) == 0 by {
        lemma_empty_row_has_no_dots(o.hscale, x);
    }
}

/// For a fixed input, a larger horizontal scale never makes an output line
/// narrower: the rows of each frame do not depend on the horizontal scale,
/// and each frame's largest scaled end and glyph count can only grow.
pub proof fn lemma_hscale_never_narrows(lines: Seq<Seq<char>>, o: Options, wider: Scale, j: int)
    requires
        o.wf(),
        wider.wf(),
        o.hscale.at_most(wider),
        0 <= j < frame_count(groups(selected_lines(lines, o), o.vscale).len()),
    ensures
        ({
            let rows = frame_rows(groups(selected_lines(lines, o), o.vscale), j);
            &&& rows == frame_rows(
                groups(selected_lines(lines, Options { hscale: wider, ..o }), o.vscale),
                j,
            )
            &&& max_end(scaled_rows(rows, o.hscale)) <= max_end(scaled_rows(rows, wider))
            &&& glyph_count(scaled_rows(rows, o.hscale)) <= glyph_count(scaled_rows(rows, wider))
        }),
{
    let o2 = Options { hscale: wider, ..o };
    lemma_selected_same_range(lines, o, o2);
    lemma_width_monotonic_in_hscale(frame_rows(groups(selected_lines(lines, o), o.vscale), j), o.hscale, wider);
}

/// Selection depends on the line range alone.
proof fn lemma_selected_same_range(lines: Seq<Seq<char>>, o1: Options, o2: Options)
    requires
        o1.first_line == o2.first_line,
        o1.last_line == o2.last_line,
    ensures
        selected_lines(lines, o1) == selected_lines(lines, o2),
    decreases lines.len(),
{
    if lines.len() > 0 {
        lemma_selected_same_range(lines.drop_last(), o1, o2);
    }
}

/// Without a line range every line is selected.
proof fn lemma_selected_all(lines: Seq<Seq<char>>, o: Options)
    requires
        o.first_line is None,
        o.last_line is None,
    ensures
        selected_lines(lines, o) == lines,
    decreases lines.len(),
{
    if lines.len() > 0 {
        lemma_selected_all(lines.drop_last(), o);
        assert(lines.drop_last().push(lines.last()) =~= lines);
    }
}

/// A line of `n` characters, none of them whitespace, spans `[0, n)`.
proof fn lemma_solid_line_bounds(l: Seq<char>)
    requires
        l.len() <= usize::MAX,
        forall|j: int| 0 <= j < l.len() ==> !white_space(#[trigger] l[j]),
    ensures
        line_bounds(l) == (Boundary { begin: 0, end: l.len() as usize }),
{
    lemma_line_bounds(l);
    if l.len() > 0 {
        assert(!white_space(l[0]));
        assert(!white_space(l[l.len() - 1]));
    }
}

/// At both scales one and without padding or range, four lines of `n`
/// non-whitespace characters each, `n` even, render as one line of `n / 2`
/// cells with every dot raised (U+28FF).
pub proof fn lemma_full_block(lines: Seq<Seq<char>>, n: nat, o: Options)
    requires
        o.wf(),
        o.hscale.num == o.hscale.den,
        o.vscale.num == o.vscale.den,
        o.padding is None,
        o.first_line is None,
        o.last_line is None,
        lines.len() == 4,
        n % 2 == 0,
        n <= usize::MAX,
        forall|i: int| 0 <= i < 4 ==> (#[trigger] lines[i]).len() == n,
        forall|i: int, j: int| 0 <= i < 4 && 0 <= j < n ==> !white_space(#[trigger] lines[i][j]),
    ensures
        minimap_text(lines, o) == Seq::new(n / 2, |_j: int| '\u{28FF}').push('\n'),
{
    let b = Boundary { begin: 0, end: n as usize };
    let v = o.vscale;
    assert forall|i: int| 0 <= i < 4 implies line_bounds(#[trigger] lines[i]) == b by {
        let l = lines[i];
        assert forall|j: int| 0 <= j < l.len() implies !white_space(#[trigger] l[j]) by {
            assert(!white_space(lines[i][j]));
        }
        lemma_solid_line_bounds(l);
    }
    lemma_selected_all(lines, o);
    lemma_scale_floor_unit(0, v);
    lemma_scale_floor_unit(1, v);
    lemma_scale_floor_unit(2, v);
    lemma_scale_floor_unit(3, v);
    let s1 = lines.take(1);
    let s2 = lines.take(2);
    let s3 = lines.take(3);
    assert(s1.drop_last() =~= Seq::<Seq<char>>::empty());
    assert(s2.drop_last() =~= s1);
    assert(s3.drop_last() =~= s2);
    assert(lines.drop_last() =~= s3);
    assert(s1.last() == lines[0]);
    assert(s2.last() == lines[1]);
    assert(s3.last() == lines[2]);
    assert(groups(s1.drop_last(), v) =~= Seq::<Boundary>::empty());
    assert(groups(s1, v) =~= seq![b]);
    assert(groups(s2, v) =~= seq![b, b]);
    assert(groups(s3, v) =~= seq![b, b, b]);
    let g = groups(lines, v);
    assert(g =~= seq![b, b, b, b]);
    let rows = frame_rows(g, 0);
    lemma_scale_floor_unit(n, o.hscale);
    lemma_scale_floor_unit(0, o.hscale);
    assert(scale_bounds(b, o.hscale) == b);
    let f = scaled_rows(rows, o.hscale);
    assert(f =~= seq![b, b, b, b]);
    assert(braille_offset(255u8) == 255) by {
        assert((255u8 >> 0u8) & 1u8 == 1u8 && (255u8 >> 1u8) & 1u8 == 1u8 && (255u8 >> 2u8) & 1u8 == 1u8
            && (255u8 >> 3u8) & 1u8 == 1u8 && (255u8 >> 4u8) & 1u8 == 1u8 && (255u8 >> 5u8) & 1u8 == 1u8
            && (255u8 >> 6u8) & 1u8 == 1u8 && (255u8 >> 7u8) & 1u8 == 1u8) by (bit_vector);
    }
    assert forall|j: int| 0 <= j < n / 2 implies #[trigger] dot_pattern(f, 2 * j) == 255u8 by {}
    assert(glyph_line(f) =~= Seq::new(n / 2, |_j: int| '\u{28FF}'));
    assert(pad_line(glyph_line(f), o.padding) == glyph_line(f));
    assert(frames_text(g, 0, o) =~= Seq::<char>::empty());
    assert(frames_text(g, 1, o) =~= frame_text(f, o.padding));
}

/// The state of a minimap that is rendered line by line.
pub struct Minimap {
    options: Options,
    /// Lines pushed so far, selected or not.
    seen: usize,
    /// Lines selected so far.
    taken: u64,
    /// The row of the last selected line.
    key: u128,
    /// The span of the group that the last selected line belongs to.
    group: Boundary,
    /// The closed groups of the frame being filled.
    rows: [Boundary; 4],
    /// How many of `rows` hold closed groups.
    filled: usize,
    lines: Ghost<Seq<Seq<char>>>,
}

impl Minimap {
    /// The options the minimap was made with.
    pub closed spec fn options(&self) -> Options {
        self.options
    }

    /// The lines pushed so far.
    pub closed spec fn lines(&self) -> Seq<Seq<char>> {
        self.lines@
    }

    /// The grouping state agrees with the selected lines `sel`.
    closed spec fn holds_groups_of(&self, sel: Seq<Seq<char>>) -> bool {
        let g = groups(sel, self.options.vscale);
        &&& self.options.wf()
        &&& self.taken == sel.len()
        &&& self.taken == 0 ==> self.filled == 0
        &&& self.taken > 0 ==> {
            &&& g.len() > 0
            &&& self.group == g.last()
            &&& self.key == scale_floor((self.taken - 1) as nat, self.options.vscale)
            &&& self.filled == (g.len() - 1) % 4
            &&& forall|r: int|
                0 <= r < self.filled ==> self.rows@[r] == #[trigger] g[4 * ((g.len() - 1) / 4) + r]
        }
    }

    /// The state agrees with the lines pushed so far.
    pub closed spec fn wf(&self) -> bool {
        &&& self.seen == self.lines@.len()
        &&& self.holds_groups_of(selected_lines(self.lines@, self.options))
    }

    /// A minimap with no line pushed yet.
    pub fn new(options: Options) -> (m: Minimap)
        requires
            options.wf(),
        ensures
            m.wf(),
            m.options() == options,
            m.lines() == Seq::<Seq<char>>::empty(),
    {
        Minimap {
            options,
            seen: 0,
            taken: 0,
            key: 0,
            group: Boundary::empty(),
            rows: [Boundary::empty(), Boundary::empty(), Boundary::empty(), Boundary::empty()],
            filled: 0,
            lines: Ghost(Seq::empty()),
        }
    }

    /// The line with boundary `b` and row `key` joins the open group.
    fn join_group(&mut self, b: Boundary, key: u128, Ghost(sel): Ghost<Seq<Seq<char>>>, Ghost(line): Ghost<Seq<char>>)
        requires
            old(self).holds_groups_of(sel),
            sel.len() < u64::MAX,
            old(self).taken > 0,
            key == old(self).key,
            key == scale_floor(sel.len(), old(self).options.vscale),
            b == line_bounds(line),
        ensures
            final(self).holds_groups_of(sel.push(line)),
            final(self).options == old(self).options,
            final(self).seen == old(self).seen,
            final(self).lines == old(self).lines,
            settled_frames(sel.push(line), old(self).options) == settled_frames(sel, old(self).options),
    {
        let ghost o = self.options;
        let ghost g = groups(sel, o.vscale);
        let ghost sel2 = sel.push(line);
        let ghost g2 = groups(sel2, o.vscale);
        assert(sel2.drop_last() == sel);
        assert(g2 == g.update(g.len() - 1, merge_bounds(g.last(), b)));
        self.group = merge(self.group, b);
        self.taken = self.taken + 1;
        proof {
            lemma_settled_when_extended(g, g2, o);
            assert(forall|r: int|
                0 <= r < self.filled ==> #[trigger] g2[4 * ((g.len() - 1) / 4) + r] == g[4 * ((g.len() - 1) / 4) + r]);
        }
    }

    /// The line with boundary `b` and row `key` opens a new group; the open
    /// group closes, and the frame it completes is written to `out`.
    fn open_group(&mut self, b: Boundary, key: u128, out: &mut String, Ghost(sel): Ghost<Seq<Seq<char>>>, Ghost(line): Ghost<Seq<char>>)
        requires
            old(self).holds_groups_of(sel),
            sel.len() < u64::MAX,
            old(self).taken > 0 ==> key != old(self).key,
            key == scale_floor(sel.len(), old(self).options.vscale),
            b == line_bounds(line),
        ensures
            final(self).holds_groups_of(sel.push(line)),
            final(self).options == old(self).options,
            final(self).seen == old(self).seen,
            final(self).lines == old(self).lines,
            final(out)@ == old(out)@ + frame_text_between(sel, sel.push(line), old(self).options),
    {
        let ghost o = self.options;
        let ghost g = groups(sel, o.vscale);
        let ghost sel2 = sel.push(line);
        let ghost g2 = groups(sel2, o.vscale);
        assert(sel2.drop_last() == sel);
        assert(g2 == g.push(b));
        if self.taken > 0 {
            proof {
                lemma_settled_when_opened(g, b, o);
            }
            // The open group takes the next row of the frame.
            self.rows[self.filled] = self.group;
            self.filled = self.filled + 1;
            if self.filled == 4 {
                assert(frame_rows(g, closed_frames(g.len()) as int) =~= self.rows@);
                let mut frame = self.rows;
                scale_frame(&mut frame, self.options.hscale);
                write_frame(out, &frame, self.options.padding);
                self.filled = 0;
            } else {
                proof {
                    assert((g2.len() - 1) / 4 == (g.len() - 1) / 4);
                    assert(forall|r: int|
                        0 <= r < self.filled ==> #[trigger] g2[4 * ((g2.len() - 1) / 4) + r] == g[4 * ((g.len() - 1) / 4) + r]);
                }
            }
        }
        self.group = b;
        self.key = key;
        self.taken = self.taken + 1;
        proof {
            assert(frame_text_between(sel, sel2, o) =~= settled_frames(sel2, o).skip(settled_frames(sel, o).len() as int));
            assert(out@ =~= old(out)@ + frame_text_between(sel, sel2, o));
        }
    }

    /// Adds a selected line to the groups; writes the frame it settles, if any.
    fn add_selected(&mut self, line: &str, out: &mut String, Ghost(sel): Ghost<Seq<Seq<char>>>)
        requires
            old(self).holds_groups_of(sel),
            sel.len() < u64::MAX,
        ensures
            final(self).holds_groups_of(sel.push(line@)),
            final(self).options == old(self).options,
            final(self).seen == old(self).seen,
            final(self).lines == old(self).lines,
            final(out)@ == old(out)@ + frame_text_between(sel, sel.push(line@), old(self).options),
    {
        let b = line_boundary(line);
        let key = row_index(self.taken, self.options.vscale);
        if self.taken > 0 && key == self.key {
            self.join_group(b, key, Ghost(sel), Ghost(line@));
            assert(frame_text_between(sel, sel.push(line@), self.options) =~= Seq::<char>::empty());
            assert(out@ =~= old(out)@ + frame_text_between(sel, sel.push(line@), self.options));
        } else {
            self.open_group(b, key, out, Ghost(sel), Ghost(line@));
        }
    }

    /// Takes the next input line; writes to `out` each frame that this line settles.
    pub fn push_line(&mut self, line: &str, out: &mut String)
        requires
            old(self).wf(),
            old(self).lines().len() < usize::MAX,
        ensures
            final(self).wf(),
            final(self).options() == old(self).options(),
            final(self).lines() == old(self).lines().push(line@),
            settled_text(old(self).lines(), old(self).options()).is_prefix_of(
                settled_text(final(self).lines(), final(self).options()),
            ),
            final(out)@ == old(out)@ + settled_text(final(self).lines(), final(self).options()).skip(
                settled_text(old(self).lines(), old(self).options()).len() as int,
            ),
    {
        let ghost o = self.options;
        let ghost old_lines = self.lines@;
        let ghost new_lines = old_lines.push(line@);
        let ghost sel = selected_lines(old_lines, o);
        proof {
            assert(new_lines.drop_last() == old_lines);
            lemma_selected_len(old_lines, o);
        }
        self.seen = self.seen + 1;
        self.lines = Ghost(new_lines);
        let number = self.seen;
        let wanted = match self.options.first_line {
            Some(f) => f <= number,
            None => true,
        } && match self.options.last_line {
            Some(l) => number <= l,
            None => true,
        };
        if wanted {
            assert(selected_lines(new_lines, o) == sel.push(line@));
            self.add_selected(line, out, Ghost(sel));
            proof {
                assert(sel.push(line@).drop_last() == sel);
                lemma_settled_prefix(sel, sel.push(line@), o);
            }
        } else {
            assert(selected_lines(new_lines, o) == sel);
            assert(out@ =~= old(out)@ + settled_text(old_lines, o).skip(
                settled_text(old_lines, o).len() as int,
            ));
        }
    }

    /// Writes the frame that is still open: the last frame, with its missing
    /// rows left empty.
    pub fn finish(self, out: &mut String)
        requires
            self.wf(),
        ensures
            settled_text(self.lines(), self.options()).is_prefix_of(
                minimap_text(self.lines(), self.options()),
            ),
            final(out)@ == old(out)@ + minimap_text(self.lines(), self.options()).skip(
                settled_text(self.lines(), self.options()).len() as int,
            ),
    {
        let ghost o = self.options;
        let ghost g = groups(selected_lines(self.lines@, o), o.vscale);
        let ghost settled = settled_text(self.lines@, o);
        if self.taken == 0 {
            assert(out@ =~= old(out)@ + minimap_text(self.lines@, o).skip(settled.len() as int));
            return ;
        }
        let mut frame = self.rows;
        frame[self.filled] = self.group;
        let mut r: usize = self.filled + 1;
        while r < 4
            invariant
                self.filled < r <= 4,
                frame@.len() == 4,
                forall|i: int| 0 <= i < self.filled ==> frame@[i] == self.rows@[i],
                frame@[self.filled as int] == self.group,
                forall|i: int| self.filled < i < r ==> frame@[i] == empty_boundary(),
            decreases 4 - r,
        {
            frame[r] = Boundary::empty();
            r = r + 1;
        }
        proof {
            let k = closed_frames(g.len());
            assert(frame_count(g.len()) == k + 1);
            assert(frame_rows(g, k as int) =~= frame@);
        }
        scale_frame(&mut frame, self.options.hscale);
        write_frame(out, &frame, self.options.padding);
        proof {
            let m = minimap_text(self.lines@, o);
            assert(m.take(settled.len() as int) =~= settled);
            assert(out@ =~= old(out)@ + m.skip(settled.len() as int));
        }
    }
}

} // verus!
