//! Points, connections, nodes, and the builder that assembles nodes.

use vstd::prelude::*;
use vstd::string::StringExecFns;
use crate::path::Path;

verus! {

/// A point is any value with a stable identifier; two points are the same
/// point exactly when their identifiers are equal.
pub trait Point: Sized {
    /// The identifier, as mathematics sees it.
    spec fn spec_id(&self) -> Seq<char>;

    /// The identifier, as text.
    fn id(&self) -> (s: String)
        ensures
            s@ == self.spec_id(),
    ;

    /// Identity comparison: true exactly when both points carry the same identifier.
    fn is_same(&self, other: &Self) -> (r: bool)
        ensures
            r == (self.spec_id() == other.spec_id()),
    ;

    /// An independent copy carrying the same identifier.
    fn duplicate(&self) -> (p: Self)
        ensures
            p.spec_id() == self.spec_id(),
    ;
}

/// A ready-made point whose identity is its name.
#[derive(Debug)]
pub struct NamedPoint {
    name: String,
}

impl NamedPoint {
    pub fn new(name: &str) -> (p: NamedPoint)
        ensures
            p.spec_id() == name@,
    {
        NamedPoint { name: String::from_str(name) }
    }
}

impl Point for NamedPoint {
    closed spec fn spec_id(&self) -> Seq<char> {
        self.name@
    }

    fn id(&self) -> (s: String) {
        self.name.clone()
    }

    fn is_same(&self, other: &Self) -> (r: bool) {
        self.name == other.name
    }

    fn duplicate(&self) -> (p: Self) {
        NamedPoint { name: self.name.clone() }
    }
}

/// A directed edge record naming the point it leads to.
#[derive(Debug)]
pub struct Connection<T: Point> {
    to: T,
}

impl<T: Point> Connection<T> {
    /// The identifier of the point this connection leads to.
    pub closed spec fn target_id(&self) -> Seq<char> {
        self.to.spec_id()
    }

    /// The point this connection leads to.
    pub fn target(&self) -> (t: &T)
        ensures
            t.spec_id() == self.target_id(),
    {
        &self.to
    }

    /// True exactly when this connection leads to the given point.
    pub fn is_connected_to(&self, point: &T) -> (r: bool)
        ensures
            r == (self.target_id() == point.spec_id()),
    {
        self.to.is_same(point)
    }
}

impl<T: Point> PartialEq for Connection<T> {
    /// Two connections are equal exactly when they lead to the same point.
    fn eq(&self, other: &Connection<T>) -> (r: bool) {
        self.to.is_same(&other.to)
    }
}

impl<T: Point> vstd::std_specs::cmp::PartialEqSpecImpl for Connection<T> {
    open spec fn obeys_eq_spec() -> bool {
        true
    }

    open spec fn eq_spec(&self, other: &Connection<T>) -> bool {
        self.target_id() == other.target_id()
    }
}

/// A point together with its outbound connections: one adjacency-list entry
/// of a net. Nodes are built by `NodeBuilder` and immutable afterwards.
#[derive(Debug)]
pub struct Node<T: Point> {
    point: T,
    connections: Vec<Connection<T>>,
}

impl<T: Point> Node<T> {
    /// The identifier of this node's subject point.
    pub closed spec fn point_id(&self) -> Seq<char> {
        self.point.spec_id()
    }

    /// The identifiers of the connection targets, in insertion order.
    pub closed spec fn connection_ids(&self) -> Seq<Seq<char>> {
        self.connections@.map_values(|c: Connection<T>| c.target_id())
    }

    /// What the builder guarantees of every node: no connection back to the
    /// node's own point, and no two connections to the same point.
    pub open spec fn wf(&self) -> bool {
        &&& !self.connection_ids().contains(self.point_id())
        &&& self.connection_ids().no_duplicates()
    }

    /// The connection targets whose identifiers do not occur in `path`,
    /// in insertion order.
    pub open spec fn followable_ids(&self, path: Seq<Seq<char>>) -> Seq<Seq<char>> {
        self.connection_ids().filter(|id: Seq<char>| !path.contains(id))
    }

    /// True exactly when this node's subject is the given point.
    pub fn point_is(&self, point: &T) -> (r: bool)
        ensures
            r == (self.point_id() == point.spec_id()),
    {
        self.point.is_same(point)
    }

    /// True exactly when some connection of this node leads to the given point.
    pub fn is_connected_to(&self, point: &T) -> (r: bool)
        ensures
            r == self.connection_ids().contains(point.spec_id()),
    {
        let mut i: usize = 0;
        while i < self.connections.len()
            invariant
                i <= self.connections.len(),
                forall|j: int| 0 <= j < i ==> self.connection_ids()[j] != point.spec_id(),
            decreases self.connections.len() - i,
        {
            if self.connections[i].is_connected_to(point) {
                assert(self.connection_ids()[i as int] == point.spec_id());
                return true;
            }
            i += 1;
        }
        false
    }

    /// Every connection target absent from `path`, in insertion order, or
    /// nothing when no such target exists. This is the single primitive the
    /// path search uses to compute valid next hops.
    pub fn connected_points_not_in_path<'a>(&'a self, path: &Path<T>) -> (r: Option<Vec<&'a T>>)
        ensures
            match r {
                Some(points) => {
                    &&& points@.len() == self.followable_ids(path@).len()
                    &&& points@.len() > 0
                    &&& forall|i: int| 0 <= i < points@.len()
                        ==> (#[trigger] points@[i]).spec_id() == self.followable_ids(path@)[i]
                },
                None => self.followable_ids(path@).len() == 0,
            },
    {
        let ghost pred = |id: Seq<char>| !path@.contains(id);
        let mut points: Vec<&T> = Vec::new();
        let mut i: usize = 0;
        proof {
            assert(self.connection_ids().take(0).filter(pred) =~= Seq::<Seq<char>>::empty());
            reveal(Seq::filter);
        }
        while i < self.connections.len()
            invariant
                i <= self.connections.len(),
                points@.len() == self.connection_ids().take(i as int).filter(
                    |id: Seq<char>| !path@.contains(id),
                ).len(),
                forall|j: int| 0 <= j < points@.len()
                    ==> (#[trigger] points@[j]).spec_id() == self.connection_ids().take(
                        i as int,
                    ).filter(|id: Seq<char>| !path@.contains(id))[j],
            decreases self.connections.len() - i,
        {
            let connection = &self.connections[i];
            proof {
                assert(self.connection_ids().take(i + 1).drop_last() =~= self.connection_ids()
                    .take(i as int));
                assert(self.connection_ids().take(i + 1).last() == connection.target_id());
                reveal(Seq::filter);
            }
            if path.do_not_contains(&connection.to) {
                points.push(&connection.to);
            }
            i += 1;
        }
        proof {
            assert(self.connection_ids().take(self.connections@.len() as int)
                =~= self.connection_ids());
        }
        if points.len() == 0 {
            None
        } else {
            Some(points)
        }
    }
}

impl<T: Point> PartialEq for Node<T> {
    /// Two nodes are equal exactly when their subject points are the same
    /// point and their connection lists lead to the same points, in order.
    fn eq(&self, other: &Node<T>) -> (r: bool) {
        if !self.point.is_same(&other.point) {
            return false;
        }
        if self.connections.len() != other.connections.len() {
            assert(self.connection_ids().len() != other.connection_ids().len());
            return false;
        }
        let mut i: usize = 0;
        while i < self.connections.len()
            invariant
                i <= self.connections.len(),
                self.connections@.len() == other.connections@.len(),
                forall|j: int| 0 <= j < i
                    ==> self.connection_ids()[j] == other.connection_ids()[j],
            decreases self.connections.len() - i,
        {
            if !self.connections[i].is_connected_to(&other.connections[i].to) {
                assert(self.connection_ids()[i as int] != other.connection_ids()[i as int]);
                return false;
            }
            i += 1;
        }
        proof {
            assert(self.connection_ids() =~= other.connection_ids());
        }
        true
    }
}

impl<T: Point> vstd::std_specs::cmp::PartialEqSpecImpl for Node<T> {
    open spec fn obeys_eq_spec() -> bool {
        true
    }

    open spec fn eq_spec(&self, other: &Node<T>) -> bool {
        self.point_id() == other.point_id() && self.connection_ids() == other.connection_ids()
    }
}

/// The errors a node builder reports.
#[derive(Debug, PartialEq, Eq)]
pub enum NodeBuildError {
    /// `build` was called without a subject point ever being set.
    MissingPoint,
    /// The subject point is recorded as one of its own connection targets.
    SelfConnection,
}

/// The effect of recording one connection on the list of connection
/// identifiers: a target already present is not recorded again.
pub open spec fn with_connection(ids: Seq<Seq<char>>, id: Seq<char>) -> Seq<Seq<char>> {
    if ids.contains(id) {
        ids
    } else {
        ids.push(id)
    }
}

/// The effect of recording a batch of connections, first to last.
pub open spec fn with_connections(ids: Seq<Seq<char>>, new_ids: Seq<Seq<char>>) -> Seq<Seq<char>>
    decreases new_ids.len(),
{
    if new_ids.len() == 0 {
        ids
    } else {
        with_connection(with_connections(ids, new_ids.drop_last()), new_ids.last())
    }
}

/// A node builder records exactly one connection per target: recording a
/// target leaves the list holding it, recording it again changes nothing,
/// and a duplicate-free list stays duplicate-free.
pub proof fn lemma_connection_recorded_once(ids: Seq<Seq<char>>, id: Seq<char>)
    ensures
        with_connection(ids, id).contains(id),
        with_connection(with_connection(ids, id), id) == with_connection(ids, id),
        ids.no_duplicates() ==> with_connection(ids, id).no_duplicates(),
{
    if !ids.contains(id) {
        assert(ids.push(id).last() == id);
        assert(ids.push(id).contains(id));
        if ids.no_duplicates() {
            assert forall|i: int, j: int|
                0 <= i < j < ids.push(id).len() implies ids.push(id)[i] != ids.push(id)[j] by {
                if j < ids.len() {
                } else {
                    assert(ids.push(id)[i] == ids[i]);
                    assert(ids.contains(ids[i]));
                }
            }
        }
    }
}

/// Collects a subject point and its connections, deduplicating connections
/// by target identity, then builds an immutable `Node`. Building fails when
/// no subject was set or when the subject is connected to itself.
#[derive(Debug)]
pub struct NodeBuilder<T: Point> {
    point: Option<T>,
    connected_points: Vec<T>,
}

impl<T: Point> NodeBuilder<T> {
    /// The identifier of the subject point, when one was set.
    pub closed spec fn subject_id(&self) -> Option<Seq<char>> {
        match self.point {
            Some(p) => Some(p.spec_id()),
            None => None,
        }
    }

    /// The identifiers of the recorded connection targets, in first-seen order.
    pub closed spec fn connection_ids(&self) -> Seq<Seq<char>> {
        self.connected_points@.map_values(|p: T| p.spec_id())
    }

    #[verifier::type_invariant]
    spec fn no_duplicate_connections(&self) -> bool {
        self.connection_ids().no_duplicates()
    }

    pub fn new() -> (b: NodeBuilder<T>)
        ensures
            b.subject_id() is None,
            b.connection_ids() == Seq::<Seq<char>>::empty(),
    {
        let point = None;
        let connections = Vec::new();
        let b = NodeBuilder { point, connected_points: connections };
        proof {
            assert(b.connection_ids() =~= Seq::<Seq<char>>::empty());
        }
        b
    }

    /// Sets, or overwrites, the subject point.
    pub fn point(self, point: &T) -> (b: Self)
        ensures
            b.subject_id() == Some(point.spec_id()),
            b.connection_ids() == self.connection_ids(),
    {
        let point_to_add = point.duplicate();
        proof {
            use_type_invariant(&self);
        }
        NodeBuilder { point: Some(point_to_add), connected_points: self.connected_points }
    }

    /// Records a connection to the given point, unless one to the same
    /// point is already recorded; then nothing changes.
    pub fn connected_point(self, point: &T) -> (b: Self)
        ensures
            b.subject_id() == self.subject_id(),
            b.connection_ids() == with_connection(self.connection_ids(), point.spec_id()),
    {
        proof {
            use_type_invariant(&self);
        }
        if self.node_is_connected_to(point) {
            return self;
        }

        let point_connected = point.duplicate();
        let mut connected = self.connected_points;
        connected.push(point_connected);
        proof {
            assert(connected@.map_values(|p: T| p.spec_id()) =~= self.connection_ids().push(
                point.spec_id(),
            ));
            lemma_connection_recorded_once(self.connection_ids(), point.spec_id());
        }
        NodeBuilder { point: self.point, connected_points: connected }
    }

    /// Records a connection to each point of the batch, in order, skipping
    /// targets already recorded.
    pub fn connected_points(self, connected_points: &Vec<T>) -> (b: Self)
        ensures
            b.subject_id() == self.subject_id(),
            b.connection_ids() == with_connections(
                self.connection_ids(),
                connected_points@.map_values(|p: T| p.spec_id()),
            ),
    {
        let ghost new_ids = connected_points@.map_values(|p: T| p.spec_id());
        let mut b = self;
        let mut i: usize = 0;
        proof {
            assert(new_ids.take(0) =~= Seq::<Seq<char>>::empty());
        }
        while i < connected_points.len()
            invariant
                i <= connected_points.len(),
                new_ids == connected_points@.map_values(|p: T| p.spec_id()),
                b.subject_id() == self.subject_id(),
                b.connection_ids() == with_connections(self.connection_ids(), new_ids.take(i as int)),
            decreases connected_points.len() - i,
        {
            proof {
                assert(new_ids.take(i + 1).drop_last() =~= new_ids.take(i as int));
                assert(new_ids.take(i + 1).last() == connected_points@[i as int].spec_id());
            }
            b = b.connected_point(&connected_points[i]);
            i += 1;
        }
        proof {
            assert(new_ids.take(connected_points@.len() as int) =~= new_ids);
        }
        b
    }

    /// Builds the node. Fails with `MissingPoint` when no subject was set,
    /// and with `SelfConnection` when the subject is among the recorded
    /// connection targets; otherwise the node carries the subject and the
    /// recorded connections, in order.
    pub fn build(&self) -> (r: Result<Node<T>, NodeBuildError>)
        ensures
            match r {
                Ok(node) => {
                    &&& self.subject_id() is Some
                    &&& node.point_id() == self.subject_id().unwrap()
                    &&& node.connection_ids() == self.connection_ids()
                    &&& !self.connection_ids().contains(self.subject_id().unwrap())
                    &&& node.wf()
                },
                Err(e) => match e {
                    NodeBuildError::MissingPoint => self.subject_id() is None,
                    NodeBuildError::SelfConnection => self.subject_id() is Some
                        && self.connection_ids().contains(self.subject_id().unwrap()),
                },
            },
    {
        proof {
            use_type_invariant(self);
        }
        let point = match &self.point {
            None => {
                return Err(NodeBuildError::MissingPoint);
            },
            Some(p) => p,
        };

        if self.node_is_connected_to(point) {
            return Err(NodeBuildError::SelfConnection);
        }

        let mut connections: Vec<Connection<T>> = Vec::new();
        let mut i: usize = 0;
        while i < self.connected_points.len()
            invariant
                i <= self.connected_points.len(),
                connections@.len() == i,
                forall|j: int| 0 <= j < i
                    ==> (#[trigger] connections@[j]).target_id() == self.connection_ids()[j],
            decreases self.connected_points.len() - i,
        {
            let to = self.connected_points[i].duplicate();
            connections.push(Connection { to });
            i += 1;
        }

        let node = Node { point: point.duplicate(), connections };
        proof {
            assert(node.connection_ids() =~= self.connection_ids());
        }
        Ok(node)
    }

    /// True exactly when a connection to the given point is already recorded.
    fn node_is_connected_to(&self, point: &T) -> (r: bool)
        ensures
            r == self.connection_ids().contains(point.spec_id()),
    {
        let mut i: usize = 0;
        while i < self.connected_points.len()
            invariant
                i <= self.connected_points.len(),
                forall|j: int| 0 <= j < i ==> self.connection_ids()[j] != point.spec_id(),
            decreases self.connected_points.len() - i,
        {
            if self.connected_points[i].is_same(point) {
                assert(self.connection_ids()[i as int] == point.spec_id());
                return true;
            }
            i += 1;
        }
        false
    }
}

} // verus!
