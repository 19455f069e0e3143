//! Rendering a whole text: splitting it into lines and feeding them to a minimap.
use vstd::prelude::*;

use crate::minimap::{minimap_text, settled_text, Minimap, Options};
use crate::scale::Scale;

verus! {

/// The pieces of `s` between line breaks: one more than `s` has `'\n'`.
pub open spec fn pieces(s: Seq<char>) -> Seq<Seq<char>>
    decreases s.len(),
{
    if s.len() == 0 {
        seq![Seq::empty()]
    } else {
        let p = pieces(s.drop_last());
        if s.last() == '\n' {
            p.push(Seq::empty())
        } else {
            p.update(p.len() - 1, p.last().push(s.last()))
        }
    }
}

/// A line without the carriage return that ends it, if any.
pub open spec fn strip_cr(l: Seq<char>) -> Seq<char> {
    if l.len() > 0 && l.last() == '\r' {
        l.drop_last()
    } else {
        l
    }
}

/// The lines of `s`: each line ends at `'\n'` or `"\r\n"`, which it does not
/// hold; a last line without a line break counts unless it is empty.
pub open spec fn text_lines(s: Seq<char>) -> Seq<Seq<char>> {
    let p = pieces(s);
    let ended = p.drop_last().map_values(|l: Seq<char>| strip_cr(l));
    if p.last().len() == 0 {
        ended
    } else {
        ended.push(p.last())
    }
}

proof fn lemma_pieces_len(s: Seq<char>)
    ensures
        1 <= pieces(s).len(),
        pieces(s).len() + pieces(s).last().len() <= s.len() + 1,
    decreases s.len(),
{
    if s.len() > 0 {
        lemma_pieces_len(s.drop_last());
    }
}

/// The minimap of `input` under `options`.
pub fn render(input: &str, options: Options) -> (r: String)
    requires
        options.wf(),
    ensures
        r@ == minimap_text(text_lines(input@), options),
{
    let mut map = Minimap::new(options);
    let mut out = String::new();
    let mut cur = String::new();
    let mut pending_cr = false;
    let n = input.unicode_len();
    let mut i: usize = 0;
    for c in it: input.chars()
        invariant
            n == input@.len(),
            i == it.index(),
            it.seq() == input@,
            i <= n,
            map.wf(),
            map.options() == options,
            map.lines() == pieces(input@.take(i as int)).drop_last().map_values(
                |l: Seq<char>| strip_cr(l),
            ),
            map.lines().len() <= i,
            pieces(input@.take(i as int)).last() == if pending_cr {
                cur@.push('\r')
            } else {
                cur@
            },
            !pending_cr ==> cur@.len() == 0 || cur@.last() != '\r',
            out@ == settled_text(map.lines(), options),
    {
        let ghost before = input@.take(i as int);
        let ghost after = input@.take(i + 1);
        proof {
            assert(after.drop_last() == before);
            lemma_pieces_len(before);
        }
        let ghost p = pieces(before);
        if c == '\n' {
            assert(strip_cr(p.last()) == cur@);
            map.push_line(cur.as_str(), &mut out);
            assert(out@ =~= settled_text(map.lines(), options));
            assert(pieces(after).drop_last() == p);
            assert(pieces(after).drop_last().map_values(|l: Seq<char>| strip_cr(l))
                =~= p.drop_last().map_values(|l: Seq<char>| strip_cr(l)).push(cur@));
            cur = String::new();
            pending_cr = false;
        } else if c == '\r' {
            if pending_cr {
                cur.push('\r');
            }
            pending_cr = true;
            assert(pieces(after).drop_last() =~= p.drop_last());
        } else {
            if pending_cr {
                cur.push('\r');
                pending_cr = false;
            }
            cur.push(c);
            assert(pieces(after).drop_last() =~= p.drop_last());
        }
        i = i + 1;
    }
    proof {
        assert(input@.take(n as int) == input@);
        lemma_pieces_len(input@);
    }
    if pending_cr {
        cur.push('\r');
    }
    if !cur.as_str().is_empty() {
        map.push_line(cur.as_str(), &mut out);
        assert(out@ =~= settled_text(map.lines(), options));
    }
    assert(map.lines() =~= text_lines(input@));
    map.finish(&mut out);
    assert(out@ =~= minimap_text(text_lines(input@), options));
    out
}

/// The minimap of `input` with the given scales and padding, over every line.
pub fn write_to_string(input: &str, hscale: Scale, vscale: Scale, padding: Option<usize>) -> (r:
    String)
    requires
        hscale.wf(),
        vscale.wf(),
    ensures
        r@ == minimap_text(
            text_lines(input@),
            Options { hscale, vscale, padding, first_line: None, last_line: None },
        ),
{
    render(input, Options { hscale, vscale, padding, first_line: None, last_line: None })
}

} // verus!
