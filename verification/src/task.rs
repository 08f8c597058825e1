//! The input of the mesh builder: a polygon with holes and the skeleton of
//! segments that lies in it.

use crate::geom::area;
use crate::geom::signed_area;
use crate::geom::Point;
use crate::geom::Pt;
use crate::problem::problem_text;
use crate::problem::Problem;
use crate::problem::ProblemView;
use crate::rational::Rational;
use vstd::prelude::*;

verus! {

/// A segment, given by its two end points.
pub type Segment = (Point, Point);

/// What a [`Task`] holds, as plain mathematical values.
pub ghost struct TaskView {
    pub outer: Seq<Point>,
    pub holes: Seq<Seq<Point>>,
    pub skeleton: Seq<Segment>,
}

/// An outer polygon, the holes in it, and the skeleton of segments that lies
/// in it.
#[derive(Debug)]
pub struct Task {
    pub outer: Vec<Pt>,
    pub holes: Vec<Vec<Pt>>,
    pub skeleton: Vec<(Pt, Pt)>,
}

impl View for Task {
    type V = TaskView;

    open spec fn view(&self) -> TaskView {
        TaskView {
            outer: self.outer.deep_view(),
            holes: self.holes.deep_view(),
            skeleton: self.skeleton.deep_view(),
        }
    }
}

/// The task that a problem stands for, if it is one: its first polygon,
/// which must run counter-clockwise, is the outer polygon, and the others,
/// which must run clockwise, are the holes. No polygon may be empty.
pub open spec fn task_of(p: ProblemView) -> Option<TaskView> {
    if p.silhouette.len() >= 1 && (forall|i: int|
        0 <= i < p.silhouette.len() ==> (#[trigger] p.silhouette[i]).len() > 0) && signed_area(
        p.silhouette[0],
    ) > 0real && (forall|i: int|
        1 <= i < p.silhouette.len() ==> signed_area(#[trigger] p.silhouette[i]) < 0real) {
        Some(
            TaskView {
                outer: p.silhouette[0],
                holes: p.silhouette.subrange(1, p.silhouette.len() as int),
                skeleton: p.skeleton,
            },
        )
    } else {
        None
    }
}

/// The task that a text stands for: the text is that of a problem, and the
/// problem is a task.
pub open spec fn task_text(s: Seq<char>) -> Option<TaskView> {
    match problem_text(s) {
        Some(p) => task_of(p),
        None => None,
    }
}

/// Reads a task, if the text is one.
fn read_task(s: &str) -> (r: Option<Task>)
    ensures
        match r {
            Some(t) => task_text(s@) == Some(t@),
            None => task_text(s@) is None,
        },
{
    match Problem::try_parse(s) {
        Some(p) => Task::from_problem(p),
        None => None,
    }
}

impl Task {
    /// The task that a problem stands for, if it is one.
    pub fn from_problem(p: Problem) -> (r: Option<Task>)
        ensures
            match r {
                Some(t) => task_of(p@) == Some(t@),
                None => task_of(p@) is None,
            },
    {
        let ghost pv = p@;
        let Problem { silhouette, skeleton } = p;
        let mut sil = silhouette;
        let n = sil.len();
        if n == 0 {
            return None;
        }
        let zero = Rational::zero();
        let mut i: usize = 0;
        while i < n
            invariant
                n == sil.len(),
                n > 0,
                i <= n,
                zero@ == 0real,
                pv == p@,
                pv.silhouette == sil.deep_view(),
                forall|k: int| 0 <= k < i ==> (#[trigger] pv.silhouette[k]).len() > 0,
                i > 0 ==> signed_area(pv.silhouette[0]) > 0real,
                forall|k: int| 1 <= k < i ==> signed_area(#[trigger] pv.silhouette[k]) < 0real,
            decreases n - i,
        {
            let poly = sil[i].as_slice();
            assert(poly.deep_view() =~= pv.silhouette[i as int]);
            if poly.len() == 0 {
                assert(pv.silhouette[i as int].len() == 0);
                return None;
            }
            let a = area(poly);
            if i == 0 {
                if !zero.lt(&a) {
                    return None;
                }
            } else {
                if !a.lt(&zero) {
                    assert(!(signed_area(pv.silhouette[i as int]) < 0real));
                    return None;
                }
            }
            i = i + 1;
        }
        let outer = sil.remove(0);
        let t = Task { outer, holes: sil, skeleton };
        proof {
            assert(t@.outer == pv.silhouette[0]);
            assert(t@.holes =~= pv.silhouette.subrange(1, pv.silhouette.len() as int));
        }
        Some(t)
    }

    /// Whether the text is a task.
    pub fn reads(s: &str) -> (b: bool)
        ensures
            b == task_text(s@) is Some,
    {
        read_task(s).is_some()
    }

    /// Reads a task from its text.
    pub fn parse(s: &str) -> (r: Task)
        requires
            task_text(s@) is Some,
        ensures
            Some(r@) == task_text(s@),
    {
        match read_task(s) {
            Some(t) => t,
            None => unreached(),
        }
    }

    /// Reads a task from its text, if the text is one.
    pub fn try_parse(s: &str) -> (r: Option<Task>)
        ensures
            match r {
                Some(t) => task_text(s@) == Some(t@),
                None => task_text(s@) is None,
            },
    {
        if Self::reads(s) {
            Some(Self::parse(s))
        } else {
            None
        }
    }
}

} // verus!
