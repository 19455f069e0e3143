//! Boundaries: the span of a line's non-whitespace characters.
use vstd::prelude::*;

verus! {

/// Whether `c` has Unicode's White_Space property.
pub uninterp spec fn white_space(c: char) -> bool;

/// Relies on `char::is_whitespace`: its result depends on the character alone.
pub assume_specification[ char::is_whitespace ](c: char) -> (r: bool)
    ensures
        r == white_space(c),
;

/// A half-open span `[begin, end)` of character positions.
///
/// A span with `end <= begin` holds no position; the boundary of a line
/// without any non-whitespace character is `[0, 0)`.
#[derive(Clone, Copy, Debug, PartialEq, Eq, Structural)]
pub struct Boundary {
    pub begin: usize,
    pub end: usize,
}

/// The boundary that holds no position.
pub open spec fn empty_boundary() -> Boundary {
    Boundary { begin: 0, end: 0 }
}

impl Boundary {
    /// Whether the span holds no position.
    pub open spec fn is_empty(self) -> bool {
        self.end <= self.begin
    }

    /// Whether position `x` lies in the span.
    pub open spec fn contains(self, x: int) -> bool {
        self.begin <= x < self.end
    }

    /// The boundary that holds no position.
    pub fn empty() -> (b: Boundary)
        ensures
            b == empty_boundary(),
    {
        Boundary { begin: 0, end: 0 }
    }

    /// Whether position `x` lies in the span.
    pub fn holds(&self, x: usize) -> (r: bool)
        ensures
            r == self.contains(x as int),
    {
        self.begin <= x && x < self.end
    }
}

/// The boundary of a line: from its first non-whitespace character to just
/// after its last one, or the empty boundary if it has none.
///
/// Positions count characters (Unicode scalar values), not bytes.
pub open spec fn line_bounds(l: Seq<char>) -> Boundary
    decreases l.len(),
{
    if l.len() == 0 {
        empty_boundary()
    } else {
        let before = line_bounds(l.drop_last());
        if white_space(l.last()) {
            before
        } else if before.is_empty() {
            Boundary { begin: (l.len() - 1) as usize, end: l.len() as usize }
        } else {
            Boundary { begin: before.begin, end: l.len() as usize }
        }
    }
}

/// The smallest span that covers both boundaries; an empty boundary covers nothing.
pub open spec fn merge_bounds(a: Boundary, b: Boundary) -> Boundary {
    if a.is_empty() {
        b
    } else if b.is_empty() {
        a
    } else {
        Boundary {
            begin: if a.begin <= b.begin { a.begin } else { b.begin },
            end: if a.end >= b.end { a.end } else { b.end },
        }
    }
}

/// What `line_bounds` means: the boundary is empty exactly when every
/// character is whitespace; otherwise it starts at the first non-whitespace
/// character and ends just after the last one.
pub proof fn lemma_line_bounds(l: Seq<char>)
    requires
        l.len() <= usize::MAX,
    ensures
        line_bounds(l).is_empty() <==> (forall|j: int| 0 <= j < l.len() ==> white_space(l[j])),
        line_bounds(l).is_empty() ==> line_bounds(l) == empty_boundary(),
        !line_bounds(l).is_empty() ==> {
            let b = line_bounds(l);
            &&& b.end <= l.len()
            &&& !white_space(l[b.begin as int])
            &&& !white_space(l[b.end - 1])
            &&& forall|j: int| 0 <= j < b.begin ==> white_space(l[j])
            &&& forall|j: int| b.end <= j < l.len() ==> white_space(l[j])
        },
    decreases l.len(),
{
    if l.len() > 0 {
        let p = l.drop_last();
        lemma_line_bounds(p);
        assert(forall|j: int| 0 <= j < p.len() ==> p[j] == l[j]);
    }
}

/// The boundary of `line`.
pub fn line_boundary(line: &str) -> (b: Boundary)
    ensures
        b == line_bounds(line@),
{
    let n = line.unicode_len();
    let mut b = Boundary::empty();
    let mut i: usize = 0;
    for c in it: line.chars()
        invariant
            n == line@.len(),
            i == it.index(),
            it.seq() == line@,
            i <= n,
            b == line_bounds(line@.take(i as int)),
    {
        proof {
            assert(line@.take(i + 1).drop_last() == line@.take(i as int));
        }
        if !c.is_whitespace() {
            if b.begin >= b.end {
                b = Boundary { begin: i, end: i + 1 };
            } else {
                b = Boundary { begin: b.begin, end: i + 1 };
            }
        }
        i = i + 1;
    }
    proof {
        assert(line@.take(n as int) == line@);
    }
    b
}

/// The smallest span that covers both boundaries.
pub fn merge(a: Boundary, b: Boundary) -> (r: Boundary)
    ensures
        r == merge_bounds(a, b),
{
    if a.end <= a.begin {
        b
    } else if b.end <= b.begin {
        a
    } else {
        Boundary {
            begin: if a.begin <= b.begin { a.begin } else { b.begin },
            end: if a.end >= b.end { a.end } else { b.end },
        }
    }
}

} // verus!
