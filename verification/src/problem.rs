//! The text form of a problem: a number of polygons, each a number of
//! points, then a number of segments.

use crate::geom::point_text;
use crate::geom::Point;
use crate::geom::Vec2;
use crate::task::Segment;
use crate::text::chars_of;
use crate::text::count_text;
use crate::text::find_first;
use crate::text::lines_of;
use crate::text::parse_count;
use crate::text::parts;
use crate::text::split_first;
use crate::text::split_lines;
use crate::text::trim;
use crate::text::trimmed;
use vstd::prelude::*;

verus! {

/// What a [`Problem`] holds, as plain mathematical values.
pub ghost struct ProblemView {
    pub silhouette: Seq<Seq<Point>>,
    pub skeleton: Seq<Segment>,
}

/// Polygons and segments as they are read, before it is known which polygon
/// is the outer one.
#[derive(Debug)]
pub struct Problem {
    pub silhouette: Vec<Vec<Vec2>>,
    pub skeleton: Vec<(Vec2, Vec2)>,
}

impl View for Problem {
    type V = ProblemView;

    open spec fn view(&self) -> ProblemView {
        ProblemView {
            silhouette: self.silhouette.deep_view(),
            skeleton: self.skeleton.deep_view(),
        }
    }
}

/// The count on line `i`, white space at its ends aside.
pub open spec fn count_at(lines: Seq<Seq<char>>, i: int) -> Option<nat> {
    if 0 <= i < lines.len() {
        count_text(trimmed(lines[i]))
    } else {
        None
    }
}

/// The point on line `i`, white space at its ends aside.
pub open spec fn point_at(lines: Seq<Seq<char>>, i: int) -> Option<Point> {
    if 0 <= i < lines.len() {
        point_text(trimmed(lines[i]))
    } else {
        None
    }
}

/// The `m` points on the lines from line `i` on.
pub open spec fn points_from(lines: Seq<Seq<char>>, i: int, m: nat) -> Option<Seq<Point>>
    decreases m,
{
    if m == 0 {
        Some(Seq::empty())
    } else {
        match points_from(lines, i, (m - 1) as nat) {
            Some(ps) => match point_at(lines, i + m - 1) {
                Some(p) => Some(ps.push(p)),
                None => None,
            },
            None => None,
        }
    }
}

/// The `n` polygons on the lines from line `i` on, each a count and as many
/// points, and the line that follows them.
pub open spec fn polys_from(lines: Seq<Seq<char>>, i: int, n: nat) -> Option<
    (Seq<Seq<Point>>, int),
>
    decreases n,
{
    if n == 0 {
        Some((Seq::empty(), i))
    } else {
        match polys_from(lines, i, (n - 1) as nat) {
            Some((polys, j)) => match count_at(lines, j) {
                Some(m) => match points_from(lines, j + 1, m) {
                    Some(ps) => Some((polys.push(ps), j + 1 + m)),
                    None => None,
                },
                None => None,
            },
            None => None,
        }
    }
}

/// The segment that a text of the form `x,y x,y` stands for: two points
/// that the first blank parts.
pub open spec fn edge_text(s: Seq<char>) -> Option<Segment> {
    match split_first(s, ' ') {
        Some((left, right)) => match (point_text(left), point_text(right)) {
            (Some(a), Some(b)) => Some((a, b)),
            _ => None,
        },
        None => None,
    }
}

/// The segment on line `i`, white space at its ends aside.
pub open spec fn edge_at(lines: Seq<Seq<char>>, i: int) -> Option<Segment> {
    if 0 <= i < lines.len() {
        edge_text(trimmed(lines[i]))
    } else {
        None
    }
}

/// The `n` segments on the lines from line `i` on.
pub open spec fn edges_from(lines: Seq<Seq<char>>, i: int, n: nat) -> Option<Seq<Segment>>
    decreases n,
{
    if n == 0 {
        Some(Seq::empty())
    } else {
        match edges_from(lines, i, (n - 1) as nat) {
            Some(es) => match edge_at(lines, i + n - 1) {
                Some(e) => Some(es.push(e)),
                None => None,
            },
            None => None,
        }
    }
}

/// The problem that a text stands for: on its first line the number of
/// polygons; for each polygon a line with the number of its points and a
/// line for each point; then a line with the number of segments and a line
/// for each segment. Lines that follow are not read.
pub open spec fn problem_text(s: Seq<char>) -> Option<ProblemView> {
    let lines = lines_of(s);
    match count_at(lines, 0) {
        Some(n) => match polys_from(lines, 1, n) {
            Some((polys, j)) => match count_at(lines, j) {
                Some(k) => match edges_from(lines, j + 1, k) {
                    Some(es) => Some(ProblemView { silhouette: polys, skeleton: es }),
                    None => None,
                },
                None => None,
            },
            None => None,
        },
        None => None,
    }
}

/// Where points cannot be read, more points cannot be read either.
pub proof fn lemma_points_fail(lines: Seq<Seq<char>>, i: int, k: nat, m: nat)
    requires
        points_from(lines, i, k) is None,
        k <= m,
    ensures
        points_from(lines, i, m) is None,
    decreases m,
{
    if k < m {
        lemma_points_fail(lines, i, k, (m - 1) as nat);
    }
}

/// Where polygons cannot be read, more polygons cannot be read either.
pub proof fn lemma_polys_fail(lines: Seq<Seq<char>>, i: int, k: nat, n: nat)
    requires
        polys_from(lines, i, k) is None,
        k <= n,
    ensures
        polys_from(lines, i, n) is None,
    decreases n,
{
    if k < n {
        lemma_polys_fail(lines, i, k, (n - 1) as nat);
    }
}

/// Where segments cannot be read, more segments cannot be read either.
pub proof fn lemma_edges_fail(lines: Seq<Seq<char>>, i: int, k: nat, n: nat)
    requires
        edges_from(lines, i, k) is None,
        k <= n,
    ensures
        edges_from(lines, i, n) is None,
    decreases n,
{
    if k < n {
        lemma_edges_fail(lines, i, k, (n - 1) as nat);
    }
}

/// A text with its characters and the bounds of its lines.
struct Source<'a> {
    text: &'a str,
    chars: Vec<char>,
    lines: Vec<(usize, usize)>,
}

impl<'a> Source<'a> {
    spec fn wf(&self) -> bool {
        &&& self.chars@ == self.text@
        &&& parts(self.chars@, self.lines@) == lines_of(self.text@)
        &&& forall|k: int|
            0 <= k < self.lines.len() ==> (#[trigger] self.lines[k]).0 <= self.lines[k].1
                <= self.chars.len()
    }

    spec fn rows(&self) -> Seq<Seq<char>> {
        lines_of(self.text@)
    }

    fn new(text: &'a str) -> (r: Source<'a>)
        ensures
            r.wf(),
            r.text@ == text@,
    {
        let chars = chars_of(text);
        let lines = split_lines(&chars);
        Source { text, chars, lines }
    }

    /// The bounds of line `i` without the white space at its ends.
    fn row(&self, i: usize) -> (r: (usize, usize))
        requires
            self.wf(),
            i < self.lines.len(),
        ensures
            r.0 <= r.1 <= self.chars.len(),
            self.chars@.subrange(r.0 as int, r.1 as int) == trimmed(self.rows()[i as int]),
    {
        let (lo, hi) = self.lines[i];
        assert(parts(self.chars@, self.lines@)[i as int] == self.chars@.subrange(
            lo as int,
            hi as int,
        ));
        trim(&self.chars, lo, hi)
    }

    fn count(&self, i: usize) -> (r: Option<usize>)
        requires
            self.wf(),
        ensures
            match r {
                Some(n) => count_at(self.rows(), i as int) == Some(n as nat),
                None => count_at(self.rows(), i as int) is None,
            },
    {
        assert(parts(self.chars@, self.lines@).len() == self.lines.len());
        if i >= self.lines.len() {
            return None;
        }
        let (lo, hi) = self.row(i);
        parse_count(&self.chars, lo, hi)
    }

    /// The point written from `lo` up to `hi`.
    fn point_in(&self, lo: usize, hi: usize) -> (r: Option<Vec2>)
        requires
            self.wf(),
            lo <= hi <= self.chars.len(),
        ensures
            r.deep_view() == point_text(self.chars@.subrange(lo as int, hi as int)),
    {
        Vec2::try_parse(self.text.substring_char(lo, hi))
    }

    fn point(&self, i: usize) -> (r: Option<Vec2>)
        requires
            self.wf(),
        ensures
            r.deep_view() == point_at(self.rows(), i as int),
    {
        assert(parts(self.chars@, self.lines@).len() == self.lines.len());
        if i >= self.lines.len() {
            return None;
        }
        let (lo, hi) = self.row(i);
        self.point_in(lo, hi)
    }

    fn edge(&self, i: usize) -> (r: Option<(Vec2, Vec2)>)
        requires
            self.wf(),
        ensures
            r.deep_view() == edge_at(self.rows(), i as int),
    {
        assert(parts(self.chars@, self.lines@).len() == self.lines.len());
        if i >= self.lines.len() {
            return None;
        }
        let (lo, hi) = self.row(i);
        let ghost s = self.chars@.subrange(lo as int, hi as int);
        match find_first(&self.chars, lo, hi, ' ') {
            Some(k) => {
                proof {
                    assert(s.subrange(0, k - lo) =~= self.chars@.subrange(lo as int, k as int));
                    assert(s.subrange(k - lo + 1, s.len() as int) =~= self.chars@.subrange(
                        k + 1,
                        hi as int,
                    ));
                }
                let a = self.point_in(lo, k);
                let b = self.point_in(k + 1, hi);
                match (a, b) {
                    (Some(a), Some(b)) => Some((a, b)),
                    _ => None,
                }
            },
            None => None,
        }
    }

    fn points(&self, i: usize, m: usize) -> (r: Option<Vec<Vec2>>)
        requires
            self.wf(),
            i <= self.lines.len(),
        ensures
            r.deep_view() == points_from(self.rows(), i as int, m as nat),
            r is Some ==> i + m <= self.lines.len(),
    {
        let ghost rows = self.rows();
        assert(parts(self.chars@, self.lines@).len() == self.lines.len());
        let mut ps: Vec<Vec2> = Vec::new();
        let mut k: usize = 0;
        assert(ps.deep_view() =~= Seq::<Point>::empty());
        while k < m
            invariant
                self.wf(),
                rows == self.rows(),
                rows.len() == self.lines.len(),
                k <= m,
                i + k <= self.lines.len(),
                points_from(rows, i as int, k as nat) == Some(ps.deep_view()),
            decreases m - k,
        {
            if i + k >= self.lines.len() {
                proof {
                    assert(point_at(rows, i + k) is None);
                    assert(points_from(rows, i as int, (k + 1) as nat) is None);
                    lemma_points_fail(rows, i as int, (k + 1) as nat, m as nat);
                }
                return None;
            }
            match self.point(i + k) {
                Some(p) => {
                    let ghost held = ps.deep_view();
                    let ghost pv = p@;
                    ps.push(p);
                    assert(ps.deep_view() =~= held.push(pv));
                },
                None => {
                    proof {
                        assert(points_from(rows, i as int, (k + 1) as nat) is None);
                        lemma_points_fail(rows, i as int, (k + 1) as nat, m as nat);
                    }
                    return None;
                },
            }
            k = k + 1;
        }
        Some(ps)
    }

    fn edges(&self, i: usize, n: usize) -> (r: Option<Vec<(Vec2, Vec2)>>)
        requires
            self.wf(),
            i <= self.lines.len(),
        ensures
            r.deep_view() == edges_from(self.rows(), i as int, n as nat),
    {
        let ghost rows = self.rows();
        assert(parts(self.chars@, self.lines@).len() == self.lines.len());
        let mut es: Vec<(Vec2, Vec2)> = Vec::new();
        let mut k: usize = 0;
        assert(es.deep_view() =~= Seq::<Segment>::empty());
        while k < n
            invariant
                self.wf(),
                rows == self.rows(),
                rows.len() == self.lines.len(),
                k <= n,
                i + k <= self.lines.len(),
                edges_from(rows, i as int, k as nat) == Some(es.deep_view()),
            decreases n - k,
        {
            if i + k >= self.lines.len() {
                proof {
                    assert(edge_at(rows, i + k) is None);
                    assert(edges_from(rows, i as int, (k + 1) as nat) is None);
                    lemma_edges_fail(rows, i as int, (k + 1) as nat, n as nat);
                }
                return None;
            }
            match self.edge(i + k) {
                Some(e) => {
                    let ghost held = es.deep_view();
                    let ghost ev = (e.0@, e.1@);
                    es.push(e);
                    assert(es.deep_view() =~= held.push(ev));
                },
                None => {
                    proof {
                        assert(edges_from(rows, i as int, (k + 1) as nat) is None);
                        lemma_edges_fail(rows, i as int, (k + 1) as nat, n as nat);
                    }
                    return None;
                },
            }
            k = k + 1;
        }
        Some(es)
    }

    fn polys(&self, i: usize, n: usize) -> (r: Option<(Vec<Vec<Vec2>>, usize)>)
        requires
            self.wf(),
            i <= self.lines.len(),
        ensures
            match r {
                Some((polys, j)) => polys_from(self.rows(), i as int, n as nat) == Some(
                    (polys.deep_view(), j as int),
                ) && j <= self.lines.len(),
                None => polys_from(self.rows(), i as int, n as nat) is None,
            },
    {
        let ghost rows = self.rows();
        assert(parts(self.chars@, self.lines@).len() == self.lines.len());
        let mut polys: Vec<Vec<Vec2>> = Vec::new();
        let mut j = i;
        let mut k: usize = 0;
        assert(polys.deep_view() =~= Seq::<Seq<Point>>::empty());
        while k < n
            invariant
                self.wf(),
                rows == self.rows(),
                rows.len() == self.lines.len(),
                k <= n,
                j <= self.lines.len(),
                polys_from(rows, i as int, k as nat) == Some((polys.deep_view(), j as int)),
            decreases n - k,
        {
            let m = match self.count(j) {
                Some(m) => m,
                None => {
                    proof {
                        assert(polys_from(rows, i as int, (k + 1) as nat) is None);
                        lemma_polys_fail(rows, i as int, (k + 1) as nat, n as nat);
                    }
                    return None;
                },
            };
            assert(j < self.lines.len());
            match self.points(j + 1, m) {
                Some(ps) => {
                    let ghost held = polys.deep_view();
                    let ghost pv = ps.deep_view();
                    polys.push(ps);
                    assert(polys.deep_view() =~= held.push(pv));
                    j = j + 1 + m;
                },
                None => {
                    proof {
                        assert(polys_from(rows, i as int, (k + 1) as nat) is None);
                        lemma_polys_fail(rows, i as int, (k + 1) as nat, n as nat);
                    }
                    return None;
                },
            }
            k = k + 1;
        }
        Some((polys, j))
    }
}

/// Reads a problem, if the text is one.
fn read_problem(s: &str) -> (r: Option<Problem>)
    ensures
        match r {
            Some(p) => problem_text(s@) == Some(p@),
            None => problem_text(s@) is None,
        },
{
    let src = Source::new(s);
    assert(parts(src.chars@, src.lines@).len() == src.lines.len());
    let n = match src.count(0) {
        Some(n) => n,
        None => {
            return None;
        },
    };
    let (silhouette, j) = match src.polys(1, n) {
        Some(r) => r,
        None => {
            return None;
        },
    };
    let k = match src.count(j) {
        Some(k) => k,
        None => {
            return None;
        },
    };
    match src.edges(j + 1, k) {
        Some(skeleton) => Some(Problem { silhouette, skeleton }),
        None => None,
    }
}

impl Problem {
    /// Whether the text is a problem.
    pub fn reads(s: &str) -> (b: bool)
        ensures
            b == problem_text(s@) is Some,
    {
        read_problem(s).is_some()
    }

    /// Reads a problem from its text.
    pub fn parse(s: &str) -> (r: Problem)
        requires
            problem_text(s@) is Some,
        ensures
            Some(r@) == problem_text(s@),
    {
        match read_problem(s) {
            Some(p) => p,
            None => unreached(),
        }
    }

    /// Reads a problem from its text, if the text is one.
    pub fn try_parse(s: &str) -> (r: Option<Problem>)
        ensures
            match r {
                Some(p) => problem_text(s@) == Some(p@),
                None => problem_text(s@) is None,
            },
    {
        if Self::reads(s) {
            Some(Self::parse(s))
        } else {
            None
        }
    }
}

} // verus!
