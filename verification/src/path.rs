//! Paths: ordered sequences of points describing one route, and their builder.

use vstd::prelude::*;
use vstd::string::StringExecFns;
use crate::node::Point;

verus! {

/// The identifiers of a route joined into one text, with `-` between
/// consecutive entries.
pub open spec fn rendered(ids: Seq<Seq<char>>) -> Seq<char>
    decreases ids.len(),
{
    if ids.len() == 0 {
        Seq::empty()
    } else if ids.len() == 1 {
        ids[0]
    } else {
        rendered(ids.drop_last()) + seq!['-'] + ids.last()
    }
}

/// An ordered sequence of points describing a route. A path is read through
/// its view: the sequence of the identifiers of its points, in order.
#[derive(Debug)]
pub struct Path<T: Point> {
    points: Vec<T>,
}

impl<T: Point> View for Path<T> {
    type V = Seq<Seq<char>>;

    closed spec fn view(&self) -> Seq<Seq<char>> {
        self.points@.map_values(|p: T| p.spec_id())
    }
}

impl<T: Point> Path<T> {
    /// Appends a point to the end of the route.
    pub fn push(&mut self, point: T)
        ensures
            final(self)@ == old(self)@.push(point.spec_id()),
    {
        self.points.push(point);
        proof {
            assert(self@ =~= old(self)@.push(point.spec_id()));
        }
    }

    /// True exactly when no point of the route carries the given identifier.
    pub fn do_not_contains(&self, point_to_check: &T) -> (r: bool)
        ensures
            r == !self@.contains(point_to_check.spec_id()),
    {
        let mut i: usize = 0;
        while i < self.points.len()
            invariant
                i <= self.points.len(),
                forall|j: int| 0 <= j < i ==> self@[j] != point_to_check.spec_id(),
            decreases self.points.len() - i,
        {
            if self.points[i].is_same(point_to_check) {
                assert(self@[i as int] == point_to_check.spec_id());
                return false;
            }
            i += 1;
        }
        true
    }

    /// True exactly when the route is not empty and its last point carries
    /// the given identifier.
    pub fn ends_with(&self, point: &T) -> (r: bool)
        ensures
            r == (self@.len() > 0 && self@.last() == point.spec_id()),
    {
        if self.points.len() == 0 {
            false
        } else {
            self.points[self.points.len() - 1].is_same(point)
        }
    }

    /// An independent copy of the route.
    pub fn duplicate(&self) -> (r: Path<T>)
        ensures
            r@ == self@,
    {
        let points = duplicate_points(&self.points);
        let r = Path { points };
        proof {
            assert(r@ =~= self@);
        }
        r
    }

    /// An independent copy of the route, extended with one more point.
    pub fn with_point_at_the_end(&self, point: &T) -> (r: Path<T>)
        ensures
            r@ == self@.push(point.spec_id()),
    {
        let mut r = self.duplicate();
        r.push(point.duplicate());
        r
    }

    /// The route as text: the identifiers in order, joined with `-`.
    pub fn render(&self) -> (r: String)
        ensures
            r@ == rendered(self@),
    {
        let mut out = String::new();
        let mut i: usize = 0;
        proof {
            assert(self@.take(0) =~= Seq::<Seq<char>>::empty());
        }
        while i < self.points.len()
            invariant
                i <= self.points.len(),
                out@ == rendered(self@.take(i as int)),
            decreases self.points.len() - i,
        {
            if i > 0 {
                out.append("-");
            }
            let id = self.points[i].id();
            out.append(id.as_str());
            proof {
                reveal_strlit("-");
                let done = self@.take(i + 1 as int);
                assert(done.drop_last() =~= self@.take(i as int));
                assert(done.last() == self@[i as int]);
                assert(out@ =~= rendered(done));
            }
            i += 1;
        }
        proof {
            assert(self@.take(self.points.len() as int) =~= self@);
        }
        out
    }
}

/// An independent, identifier-preserving copy of a list of points.
fn duplicate_points<T: Point>(points: &Vec<T>) -> (r: Vec<T>)
    ensures
        r@.len() == points@.len(),
        forall|i: int| 0 <= i < r@.len() ==> (#[trigger] r@[i]).spec_id() == points@[i].spec_id(),
{
    let mut r: Vec<T> = Vec::new();
    let mut i: usize = 0;
    while i < points.len()
        invariant
            i <= points.len(),
            r@.len() == i,
            forall|j: int| 0 <= j < i ==> (#[trigger] r@[j]).spec_id() == points@[j].spec_id(),
        decreases points.len() - i,
    {
        r.push(points[i].duplicate());
        i += 1;
    }
    r
}

/// The error a path builder reports: a route must hold at least one point.
#[derive(Debug, PartialEq, Eq)]
pub enum PathBuildError {
    EmptyPath,
}

/// Collects points one at a time or as a batch, then builds an immutable
/// `Path`. Building fails when no point was ever supplied.
pub struct PathBuilder<T: Point> {
    points: Vec<T>,
}

impl<T: Point> PathBuilder<T> {
    /// The identifiers of the points collected so far, in order.
    pub closed spec fn point_ids(&self) -> Seq<Seq<char>> {
        self.points@.map_values(|p: T| p.spec_id())
    }

    pub fn new() -> (b: PathBuilder<T>)
        ensures
            b.point_ids() == Seq::<Seq<char>>::empty(),
    {
        let b = PathBuilder { points: Vec::new() };
        proof {
            assert(b.point_ids() =~= Seq::<Seq<char>>::empty());
        }
        b
    }

    /// Appends every point of the batch, in order.
    pub fn points(self, points: Vec<T>) -> (b: Self)
        ensures
            b.point_ids() == self.point_ids() + points@.map_values(|p: T| p.spec_id()),
    {
        let mut collected = self.points;
        let mut i: usize = 0;
        while i < points.len()
            invariant
                i <= points.len(),
                collected@.len() == self.points@.len() + i,
                forall|j: int| 0 <= j < self.points@.len()
                    ==> (#[trigger] collected@[j]).spec_id() == self.points@[j].spec_id(),
                forall|j: int| self.points@.len() <= j < collected@.len()
                    ==> (#[trigger] collected@[j]).spec_id()
                        == points@[j - self.points@.len()].spec_id(),
            decreases points.len() - i,
        {
            collected.push(points[i].duplicate());
            i += 1;
        }
        let b = PathBuilder { points: collected };
        proof {
            assert(b.point_ids() =~= self.point_ids() + points@.map_values(|p: T| p.spec_id()));
        }
        b
    }

    /// Appends one point.
    pub fn point(self, point: &T) -> (b: Self)
        ensures
            b.point_ids() == self.point_ids().push(point.spec_id()),
    {
        let mut collected = self.points;
        collected.push(point.duplicate());
        let b = PathBuilder { points: collected };
        proof {
            assert(b.point_ids() =~= self.point_ids().push(point.spec_id()));
        }
        b
    }

    /// Builds the route. Fails exactly when no point was supplied.
    pub fn build(&self) -> (r: Result<Path<T>, PathBuildError>)
        ensures
            match r {
                Ok(path) => self.point_ids().len() > 0 && path@ == self.point_ids(),
                Err(e) => e == PathBuildError::EmptyPath && self.point_ids().len() == 0,
            },
    {
        if self.points.len() == 0 {
            Err(PathBuildError::EmptyPath)
        } else {
            let points = duplicate_points(&self.points);
            let path = Path { points };
            proof {
                assert(path@ =~= self.point_ids());
            }
            Ok(path)
        }
    }
}

} // verus!
