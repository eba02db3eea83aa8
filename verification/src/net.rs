//! The net: a collection of nodes, and the search that enumerates every
//! simple path between two of its points.

use vstd::prelude::*;
use crate::node::{Node, Point};
use crate::path::{Path, PathBuilder, PathBuildError};

verus! {

/// The errors a path search reports.
#[derive(Debug)]
pub enum NetErrors {
    /// The identifier of a point for which the net holds no node.
    PointNotFound(String),
    /// Both points have nodes, but no simple path connects them.
    NoPathFound,
    /// Seeding the search with the starting point failed. Defensive: a path
    /// of one point always builds, so a search never actually reports this.
    PathCannotBeBuilt(PathBuildError),
}

/// An unordered collection of nodes, one per distinct point. Whether a graph
/// is undirected is a convention of the caller, who records each direction
/// of an edge on its own node.
#[derive(Debug)]
pub struct Net<T: Point> {
    pub nodes: Vec<Node<T>>,
}

/// The first node of `nodes` whose point carries `id`; lookups resolve an
/// identifier to the earliest matching node.
pub open spec fn first_with<T: Point>(nodes: Seq<Node<T>>, id: Seq<char>) -> Node<T>
    decreases nodes.len(),
{
    if nodes.len() == 0 {
        arbitrary()
    } else if nodes[0].point_id() == id {
        nodes[0]
    } else {
        first_with(nodes.drop_first(), id)
    }
}

/// The views of a list of paths: each route as its sequence of identifiers.
pub open spec fn path_views<T: Point>(paths: Seq<Path<T>>) -> Seq<Seq<Seq<char>>> {
    paths.map_values(|p: Path<T>| p@)
}

impl<T: Point> Net<T> {
    /// The identifiers of the nodes, in order.
    pub open spec fn node_ids(&self) -> Seq<Seq<char>> {
        self.nodes@.map_values(|n: Node<T>| n.point_id())
    }

    /// Whether some node of the net carries this identifier.
    pub open spec fn has_node(&self, id: Seq<char>) -> bool {
        self.node_ids().contains(id)
    }

    /// Whether some node whose point carries `a` records a connection to `b`.
    pub open spec fn links(&self, a: Seq<char>, b: Seq<char>) -> bool {
        exists|i: int|
            0 <= i < self.nodes@.len() && (#[trigger] self.nodes@[i]).point_id() == a
                && self.nodes@[i].connection_ids().contains(b)
    }

    /// Whether every connection target of `node` has a node of its own in
    /// this net.
    pub open spec fn targets_present(&self, node: Node<T>) -> bool {
        forall|j: int|
            0 <= j < node.connection_ids().len() ==> self.has_node(
                #[trigger] node.connection_ids()[j],
            )
    }

    /// Structural consistency: every connection target of every node has a
    /// node of its own. A search over a net without this property would run
    /// into a connection pointing nowhere, a caller-side data error.
    pub open spec fn complete(&self) -> bool {
        forall|i: int| 0 <= i < self.nodes@.len() ==> self.targets_present(#[trigger] self.nodes@[i])
    }

    /// A route the search may hold: loop-free, and every identifier on it
    /// carried by some node of the net.
    pub open spec fn route_ok(&self, route: Seq<Seq<char>>) -> bool {
        &&& route.no_duplicates()
        &&& forall|i: int| 0 <= i < route.len() ==> self.has_node(#[trigger] route[i])
    }

    /// What the recursive search relies on: a consistent net and a non-empty,
    /// well-formed route so far.
    pub open spec fn search_wf(&self, route: Seq<Seq<char>>) -> bool {
        &&& self.complete()
        &&& route.len() >= 1
        &&& self.route_ok(route)
    }

    /// Candidate next hops the search may branch on: each has a node, and
    /// none is already on the route.
    pub open spec fn cands_ok(&self, cands: Seq<Seq<char>>, route: Seq<Seq<char>>) -> bool {
        forall|i: int|
            0 <= i < cands.len() ==> self.has_node(#[trigger] cands[i]) && !route.contains(cands[i])
    }

    /// A loop-free route of this net from `a` to `b`: it starts with `a`,
    /// ends with `b`, repeats no point, and each consecutive pair is a
    /// recorded connection of some node.
    pub open spec fn simple_route(&self, route: Seq<Seq<char>>, a: Seq<char>, b: Seq<char>) -> bool {
        &&& route.len() >= 1
        &&& route.first() == a
        &&& route.last() == b
        &&& route.no_duplicates()
        &&& forall|i: int| 0 <= i < route.len() - 1 ==> self.links(#[trigger] route[i], route[i + 1])
    }

    /// What the search guarantees of each path it reports for a walked
    /// route: the path extends the route, ends at `to`, repeats no point,
    /// and every step it adds is a recorded connection of some node.
    pub open spec fn extends_route(
        &self,
        found: Seq<Seq<char>>,
        route: Seq<Seq<char>>,
        to: Seq<char>,
    ) -> bool {
        &&& found.len() >= route.len()
        &&& found.take(route.len() as int) == route
        &&& found.last() == to
        &&& found.no_duplicates()
        &&& forall|i: int|
            route.len() - 1 <= i < found.len() - 1 ==> self.links(#[trigger] found[i], found[i + 1])
    }
}

/// A loop-free route whose identifiers all have nodes cannot be longer than
/// the node list itself.
pub proof fn lemma_route_len_bounded<T: Point>(net: &Net<T>, route: Seq<Seq<char>>)
    requires
        route.no_duplicates(),
        forall|i: int| 0 <= i < route.len() ==> net.has_node(#[trigger] route[i]),
    ensures
        route.len() <= net.nodes@.len(),
{
    broadcast use vstd::seq_lib::group_seq_properties;

    route.unique_seq_to_set();
    assert forall|id: Seq<char>| route.to_set().contains(id)
        implies net.node_ids().to_set().contains(id) by {
        assert(route.contains(id));
    }
    vstd::set_lib::lemma_len_subset(route.to_set(), net.node_ids().to_set());
    net.node_ids().lemma_cardinality_of_set();
}

/// When some node carries `id`, the first match is among the nodes and does
/// carry `id`.
proof fn lemma_first_with_found<T: Point>(nodes: Seq<Node<T>>, id: Seq<char>)
    requires
        nodes.map_values(|n: Node<T>| n.point_id()).contains(id),
    ensures
        nodes.contains(first_with(nodes, id)),
        first_with(nodes, id).point_id() == id,
    decreases nodes.len(),
{
    let ids = nodes.map_values(|n: Node<T>| n.point_id());
    let k = choose|k: int| 0 <= k < ids.len() && ids[k] == id;
    if nodes[0].point_id() == id {
    } else {
        let rest = nodes.drop_first();
        assert(rest.map_values(|n: Node<T>| n.point_id()).contains(id)) by {
            assert(rest.map_values(|n: Node<T>| n.point_id())[k - 1] == id);
        }
        lemma_first_with_found(rest, id);
        assert(rest.contains(first_with(rest, id)));
        let j = choose|j: int| 0 <= j < rest.len() && rest[j] == first_with(rest, id);
        assert(nodes[j + 1] == first_with(nodes, id));
    }
}

/// The first match is exactly the node at the earliest matching index.
proof fn lemma_first_with_at<T: Point>(nodes: Seq<Node<T>>, id: Seq<char>, i: int)
    requires
        0 <= i < nodes.len(),
        nodes[i].point_id() == id,
        forall|j: int| 0 <= j < i ==> nodes[j].point_id() != id,
    ensures
        first_with(nodes, id) == nodes[i],
    decreases i,
{
    if i == 0 {
    } else {
        lemma_first_with_at(nodes.drop_first(), id, i - 1);
    }
}

/// Extending a well-formed route with a fresh identifier that has a node
/// keeps it well-formed, and it still fits among the nodes.
pub proof fn lemma_route_push_ok<T: Point>(net: &Net<T>, route: Seq<Seq<char>>, id: Seq<char>)
    requires
        net.route_ok(route),
        net.has_node(id),
        !route.contains(id),
    ensures
        net.route_ok(route.push(id)),
        route.push(id).len() <= net.nodes@.len(),
{
    let longer = route.push(id);
    assert(longer.no_duplicates()) by {
        assert forall|i: int, j: int| 0 <= i < j < longer.len() implies longer[i] != longer[j] by {
            if j == route.len() {
                assert(route.contains(route[i]));
            }
        }
    }
    assert forall|i: int| 0 <= i < longer.len() implies net.has_node(#[trigger] longer[i]) by {
        if i < route.len() {
            assert(net.has_node(route[i]));
        }
    }
    lemma_route_len_bounded(net, longer);
}

/// The next hops a node of the net offers are fit to branch on: each has a
/// node of its own, and none is already on the route.
proof fn lemma_followables_ok<T: Point>(net: &Net<T>, node: Node<T>, route: Seq<Seq<char>>)
    requires
        net.complete(),
        net.nodes@.contains(node),
    ensures
        net.cands_ok(node.followable_ids(route), route),
{
    broadcast use vstd::seq_lib::group_filter_ensures;

    let cands = node.followable_ids(route);
    let pred = |id: Seq<char>| !route.contains(id);
    assert forall|i: int| 0 <= i < cands.len()
        implies net.has_node(#[trigger] cands[i]) && !route.contains(cands[i]) by {
        assert(pred(node.connection_ids().filter(pred)[i]));
        assert(cands.contains(cands[i]));
        node.connection_ids().lemma_filter_contains_rev(pred, cands[i]);
        let j = choose|j: int|
            0 <= j < node.connection_ids().len() && node.connection_ids()[j] == cands[i];
        let k = choose|k: int| 0 <= k < net.nodes@.len() && net.nodes@[k] == node;
        assert(net.targets_present(net.nodes@[k]));
        assert(net.has_node(net.nodes@[k].connection_ids()[j]));
    }
}

impl<T: Point> Net<T> {
    /// Every simple path the depth-first search finds, in traversal order,
    /// given the route walked so far: the route itself once it already ends
    /// at `to`, and otherwise every path found by branching, in connection
    /// order, from the first node carrying the route's last identifier to
    /// each next hop not yet on the route.
    pub open spec fn paths_from(&self, to: Seq<char>, route: Seq<Seq<char>>) -> Seq<Seq<Seq<char>>>
        decreases self.nodes@.len() - route.len(), 1int, 0int,
        when self.search_wf(route)
    {
        if route.last() == to {
            seq![route]
        } else {
            self.paths_via(first_with(self.nodes@, route.last()).followable_ids(route), to, route)
        }
    }

    /// The paths found by branching from the route walked so far to each of
    /// the candidate next hops in turn, concatenated in candidate order.
    pub open spec fn paths_via(
        &self,
        cands: Seq<Seq<char>>,
        to: Seq<char>,
        route: Seq<Seq<char>>,
    ) -> Seq<Seq<Seq<char>>>
        decreases self.nodes@.len() - route.len(), 0int, cands.len(),
        when self.search_wf(route) && self.cands_ok(cands, route)
    {
        if cands.len() == 0 {
            Seq::empty()
        } else {
            proof {
                lemma_route_push_ok(self, route, cands[0]);
            }
            self.paths_from(to, route.push(cands[0])) + self.paths_via(
                cands.drop_first(),
                to,
                route,
            )
        }
    }
}

impl<T: Point> Net<T> {
    /// Soundness of the search: every path it reports for a walked route
    /// extends that route to `to` without revisiting a point, stepping only
    /// along recorded connections of the net.
    pub proof fn lemma_paths_from_sound(&self, to: Seq<char>, route: Seq<Seq<char>>)
        requires
            self.search_wf(route),
        ensures
            forall|k: int|
                0 <= k < self.paths_from(to, route).len() ==> self.extends_route(
                    #[trigger] self.paths_from(to, route)[k],
                    route,
                    to,
                ),
        decreases self.nodes@.len() - route.len(), 1int, 0int,
    {
        if route.last() == to {
            assert(route.take(route.len() as int) =~= route);
            assert(self.extends_route(route, route, to));
            assert(self.paths_from(to, route)[0] == route);
        } else {
            broadcast use vstd::seq_lib::group_filter_ensures;

            assert(self.has_node(route.last())) by {
                assert(self.has_node(route[route.len() - 1]));
            }
            lemma_first_with_found(self.nodes@, route.last());
            let node = first_with(self.nodes@, route.last());
            lemma_followables_ok(self, node, route);
            let cands = node.followable_ids(route);
            assert forall|i: int| 0 <= i < cands.len()
                implies self.links(route.last(), #[trigger] cands[i]) by {
                assert(cands.contains(cands[i]));
                node.connection_ids().lemma_filter_contains_rev(
                    |id: Seq<char>| !route.contains(id),
                    cands[i],
                );
                let j = choose|j: int| 0 <= j < self.nodes@.len() && self.nodes@[j] == node;
                assert(self.nodes@[j].connection_ids().contains(cands[i]));
            }
            self.lemma_paths_via_sound(cands, to, route);
            assert(self.paths_from(to, route) == self.paths_via(cands, to, route));
            assert forall|k: int| 0 <= k < self.paths_from(to, route).len()
                implies self.extends_route(#[trigger] self.paths_from(to, route)[k], route, to) by {
                assert(self.paths_from(to, route)[k] == self.paths_via(cands, to, route)[k]);
            }
        }
    }

    /// Soundness of one level of branching: every path reported by any of
    /// the branches extends the walked route as `lemma_paths_from_sound`
    /// states.
    proof fn lemma_paths_via_sound(&self, cands: Seq<Seq<char>>, to: Seq<char>, route: Seq<Seq<char>>)
        requires
            self.search_wf(route),
            self.cands_ok(cands, route),
            forall|i: int| 0 <= i < cands.len() ==> self.links(route.last(), #[trigger] cands[i]),
        ensures
            forall|k: int|
                0 <= k < self.paths_via(cands, to, route).len() ==> self.extends_route(
                    #[trigger] self.paths_via(cands, to, route)[k],
                    route,
                    to,
                ),
        decreases self.nodes@.len() - route.len(), 0int, cands.len(),
    {
        if cands.len() == 0 {
        } else {
            let c = cands[0];
            lemma_route_push_ok(self, route, c);
            let longer = route.push(c);
            self.lemma_paths_from_sound(to, longer);
            let first_part = self.paths_from(to, longer);
            assert forall|k: int| 0 <= k < first_part.len()
                implies self.extends_route(#[trigger] first_part[k], route, to) by {
                let f = first_part[k];
                assert(self.extends_route(f, longer, to));
                assert(f.take(longer.len() as int) == longer);
                assert(f.take(route.len() as int) =~= route) by {
                    assert forall|i: int| 0 <= i < route.len()
                        implies f.take(route.len() as int)[i] == route[i] by {
                        assert(f[i] == f.take(longer.len() as int)[i]);
                    }
                }
                assert forall|i: int| route.len() - 1 <= i < f.len() - 1
                    implies self.links(#[trigger] f[i], f[i + 1]) by {
                    if i == route.len() - 1 {
                        assert(f[i] == f.take(longer.len() as int)[i]);
                        assert(f[i + 1] == f.take(longer.len() as int)[i + 1]);
                        assert(f[i] == route.last() && f[i + 1] == c);
                    }
                }
            }
            let rest = cands.drop_first();
            assert forall|i: int| 0 <= i < rest.len()
                implies self.has_node(#[trigger] rest[i]) && !route.contains(rest[i])
                    && self.links(route.last(), rest[i]) by {
                assert(rest[i] == cands[i + 1]);
                assert(self.has_node(cands[i + 1]) && !route.contains(cands[i + 1]));
                assert(self.links(route.last(), cands[i + 1]));
            }
            self.lemma_paths_via_sound(rest, to, route);
            let second_part = self.paths_via(rest, to, route);
            assert forall|k: int| 0 <= k < self.paths_via(cands, to, route).len()
                implies self.extends_route(
                #[trigger] self.paths_via(cands, to, route)[k],
                route,
                to,
            ) by {
                if k < first_part.len() {
                    assert(self.paths_via(cands, to, route)[k] == first_part[k]);
                } else {
                    assert(self.paths_via(cands, to, route)[k] == second_part[
                        k - first_part.len()
                    ]);
                }
            }
        }
    }

    /// Idempotence of the search: `find_paths` pins the identifiers of the
    /// paths it returns to `paths_from`, a function of the net and the two
    /// endpoints alone, so two searches of one unmodified net with the same
    /// endpoints report the same paths, in the same order.
    pub proof fn lemma_find_paths_idempotent(
        &self,
        from: Seq<char>,
        to: Seq<char>,
        first_found: Seq<Seq<Seq<char>>>,
        second_found: Seq<Seq<Seq<char>>>,
    )
        requires
            first_found == self.paths_from(to, seq![from]),
            second_found == self.paths_from(to, seq![from]),
        ensures
            first_found == second_found,
    {
    }

    /// Every simple path from `from` to `to`, in deterministic traversal
    /// order: node lookup follows node order, and branching follows each
    /// node's connection insertion order. Fails with `PointNotFound` when
    /// `from` (checked first) or `to` has no node, and with `NoPathFound`
    /// when both have nodes but no loop-free route joins them. Every path
    /// returned starts at `from`, ends at `to`, repeats no point, and steps
    /// only along recorded connections.
    ///
    /// The net must be structurally consistent (`complete`): a connection
    /// pointing to a point with no node is a caller-side data error, not an
    /// input the search recovers from.
    pub fn find_paths(&self, from: &T, to: &T) -> (r: Result<Vec<Path<T>>, NetErrors>)
        requires
            self.complete(),
        ensures
            match r {
                Ok(paths) => {
                    &&& self.has_node(from.spec_id())
                    &&& self.has_node(to.spec_id())
                    &&& path_views(paths@) == self.paths_from(to.spec_id(), seq![from.spec_id()])
                    &&& paths@.len() > 0
                    &&& forall|k: int|
                        0 <= k < paths@.len() ==> self.simple_route(
                            #[trigger] paths@[k]@,
                            from.spec_id(),
                            to.spec_id(),
                        )
                },
                Err(e) => match e {
                    NetErrors::PointNotFound(id) => (!self.has_node(from.spec_id()) && id@
                        == from.spec_id()) || (self.has_node(from.spec_id()) && !self.has_node(
                        to.spec_id(),
                    ) && id@ == to.spec_id()),
                    NetErrors::NoPathFound => self.has_node(from.spec_id()) && self.has_node(
                        to.spec_id(),
                    ) && self.paths_from(to.spec_id(), seq![from.spec_id()]).len() == 0,
                    NetErrors::PathCannotBeBuilt(_) => false,
                },
            },
    {
        let node_from = match self.find_node_or_throws(from) {
            Ok(node) => node,
            Err(err) => {
                return Err(err);
            },
        };
        if let Err(err) = self.find_node_or_throws(to) {
            return Err(err);
        }

        match PathBuilder::new().point(from).build() {
            Ok(beginning_path) => {
                let ghost start = seq![from.spec_id()];
                proof {
                    assert(beginning_path@ =~= start);
                    assert(start[0] == from.spec_id());
                    assert(self.search_wf(start));
                }
                let r = self.find_paths_not_crossing_previous_path(node_from, to, &beginning_path);
                proof {
                    self.lemma_paths_from_sound(to.spec_id(), start);
                    if let Ok(paths) = &r {
                        assert forall|k: int| 0 <= k < paths@.len() implies self.simple_route(
                            #[trigger] paths@[k]@,
                            from.spec_id(),
                            to.spec_id(),
                        ) by {
                            let found = paths@[k]@;
                            assert(found == path_views(paths@)[k]);
                            assert(self.extends_route(found, start, to.spec_id()));
                            assert(found.first() == found.take(1)[0]);
                            assert(found.take(1) == start);
                        }
                    }
                }
                r
            },
            Err(error) => Err(NetErrors::PathCannotBeBuilt(error)),
        }
    }

    /// Linear search for the first node whose point carries the given
    /// identifier, or `PointNotFound` with that identifier when there is none.
    fn find_node_or_throws(&self, point: &T) -> (r: Result<&Node<T>, NetErrors>)
        ensures
            self.has_node(point.spec_id()) ==> (r matches Ok(node) && *node == first_with(
                self.nodes@,
                point.spec_id(),
            )),
            !self.has_node(point.spec_id()) ==> (r matches Err(e) && e matches
                NetErrors::PointNotFound(id) && id@ == point.spec_id()),
    {
        let mut i: usize = 0;
        while i < self.nodes.len()
            invariant
                i <= self.nodes.len(),
                forall|j: int| 0 <= j < i ==> (#[trigger] self.nodes@[j]).point_id()
                    != point.spec_id(),
            decreases self.nodes.len() - i,
        {
            if self.nodes[i].point_is(point) {
                proof {
                    assert(self.node_ids()[i as int] == point.spec_id());
                    lemma_first_with_at(self.nodes@, point.spec_id(), i as int);
                }
                return Ok(&self.nodes[i]);
            }
            i += 1;
        }
        proof {
            assert forall|j: int| 0 <= j < self.node_ids().len()
                implies self.node_ids()[j] != point.spec_id() by {
                assert(self.nodes@[j].point_id() != point.spec_id());
            }
        }
        Err(NetErrors::PointNotFound(point.id()))
    }

    /// The node for a point the net is known to hold; the lookup cannot fail.
    fn find_node_or_panic(&self, point: &T) -> (node: &Node<T>)
        requires
            self.has_node(point.spec_id()),
        ensures
            *node == first_with(self.nodes@, point.spec_id()),
    {
        match self.find_node_or_throws(point) {
            Ok(node) => node,
            Err(_) => unreached(),
        }
    }

    /// A branch of the search may fail softly with `NoPathFound`; any other
    /// error coming out of a branch would be a programming error.
    fn panic_if_error_is_not_path_not_found(err: NetErrors)
        requires
            err is NoPathFound,
    {
        match err {
            NetErrors::NoPathFound => (),
            _ => unreached(),
        }
    }

    /// One level of the depth-first search: the route walked so far is
    /// complete once it ends at `to`; otherwise every next hop of `from`
    /// not yet on the route is explored in connection order, and the paths
    /// of all branches are collected. A level with no complete path reports
    /// `NoPathFound`, which the level above absorbs.
    #[verifier::loop_isolation(false)]
    fn find_paths_not_crossing_previous_path(
        &self,
        from: &Node<T>,
        to: &T,
        previous_path: &Path<T>,
    ) -> (r: Result<Vec<Path<T>>, NetErrors>)
        requires
            self.search_wf(previous_path@),
            *from == first_with(self.nodes@, previous_path@.last()),
        ensures
            match r {
                Ok(paths) => paths@.len() > 0 && path_views(paths@) == self.paths_from(
                    to.spec_id(),
                    previous_path@,
                ),
                Err(e) => e is NoPathFound && self.paths_from(
                    to.spec_id(),
                    previous_path@,
                ).len() == 0,
            },
        decreases self.nodes@.len() - previous_path@.len(), 1int,
    {
        if previous_path.ends_with(to) {
            let current_path = previous_path.duplicate();
            let one = vec![current_path];
            proof {
                assert(path_views(one@) =~= seq![previous_path@]);
            }
            return Ok(one);
        }

        let ghost goal = to.spec_id();
        let ghost cands = from.followable_ids(previous_path@);
        proof {
            assert(self.has_node(previous_path@.last())) by {
                assert(self.has_node(previous_path@[previous_path@.len() - 1]));
            }
            lemma_first_with_found(self.nodes@, previous_path@.last());
            lemma_followables_ok(self, *from, previous_path@);
        }

        match from.connected_points_not_in_path(previous_path) {
            None => {
                proof {
                    assert(self.paths_from(goal, previous_path@).len() == 0);
                }
                Err(NetErrors::NoPathFound)
            },
            Some(followable_points) => {
                let mut paths: Vec<Path<T>> = Vec::new();
                let mut k: usize = 0;
                proof {
                    assert(cands.skip(0) =~= cands);
                    assert(path_views(paths@) + self.paths_via(cands.skip(0), goal, previous_path@)
                        =~= self.paths_via(cands, goal, previous_path@));
                }
                while k < followable_points.len()
                    invariant
                        k <= followable_points.len(),
                        path_views(paths@) + self.paths_via(
                            cands.skip(k as int),
                            goal,
                            previous_path@,
                        ) == self.paths_via(cands, goal, previous_path@),
                    decreases followable_points@.len() - k,
                {
                    let ghost prefix = path_views(paths@);
                    let point = followable_points[k];
                    proof {
                        assert(point.spec_id() == cands[k as int]);
                        assert(self.has_node(cands[k as int]) && !previous_path@.contains(
                            cands[k as int],
                        ));
                    }
                    self.push_all_paths_following(&mut paths, point, to, previous_path);
                    proof {
                        let rest = cands.skip(k as int);
                        assert(rest[0] == cands[k as int]);
                        assert(rest.drop_first() =~= cands.skip(k + 1));
                        assert forall|i: int| 0 <= i < rest.len()
                            implies self.has_node(#[trigger] rest[i]) && !previous_path@.contains(
                            rest[i],
                        ) by {
                            assert(rest[i] == cands[k + i]);
                            assert(self.has_node(cands[k + i]) && !previous_path@.contains(
                                cands[k + i],
                            ));
                        }
                        assert(self.paths_via(rest, goal, previous_path@) == self.paths_from(
                            goal,
                            previous_path@.push(cands[k as int]),
                        ) + self.paths_via(cands.skip(k + 1), goal, previous_path@));
                        assert(path_views(paths@) + self.paths_via(
                            cands.skip(k + 1),
                            goal,
                            previous_path@,
                        ) =~= (prefix + self.paths_from(goal, previous_path@.push(cands[k as int])))
                            + self.paths_via(cands.skip(k + 1), goal, previous_path@));
                        assert((prefix + self.paths_from(goal, previous_path@.push(
                            cands[k as int],
                        ))) + self.paths_via(cands.skip(k + 1), goal, previous_path@) =~= prefix
                            + (self.paths_from(goal, previous_path@.push(cands[k as int]))
                            + self.paths_via(cands.skip(k + 1), goal, previous_path@)));
                    }
                    k += 1;
                }
                proof {
                    assert(cands.skip(followable_points@.len() as int)
                        =~= Seq::<Seq<char>>::empty());
                    assert(path_views(paths@) =~= self.paths_via(cands, goal, previous_path@));
                }
                if paths.len() == 0 {
                    Err(NetErrors::NoPathFound)
                } else {
                    Ok(paths)
                }
            },
        }
    }

    /// One branch of the search: look up the node of the chosen next hop,
    /// extend an independent copy of the route with it, search on from
    /// there, and collect every path found. A branch that finds nothing
    /// contributes nothing; it never stops its sibling branches.
    fn push_all_paths_following(
        &self,
        paths: &mut Vec<Path<T>>,
        starting_point: &T,
        destination_point: &T,
        previous_path: &Path<T>,
    )
        requires
            self.search_wf(previous_path@),
            self.has_node(starting_point.spec_id()),
            !previous_path@.contains(starting_point.spec_id()),
        ensures
            path_views(final(paths)@) == path_views(old(paths)@) + self.paths_from(
                destination_point.spec_id(),
                previous_path@.push(starting_point.spec_id()),
            ),
        decreases self.nodes@.len() - previous_path@.len(), 0int,
    {
        let origin_node = self.find_node_or_panic(starting_point);
        let trying_path = previous_path.with_point_at_the_end(starting_point);
        proof {
            lemma_route_push_ok(self, previous_path@, starting_point.spec_id());
        }
        let path_search = self.find_paths_not_crossing_previous_path(
            origin_node,
            destination_point,
            &trying_path,
        );
        match path_search {
            Ok(mut paths_found) => {
                let ghost before = paths@;
                let ghost found = paths_found@;
                paths.append(&mut paths_found);
                proof {
                    assert(path_views(paths@) =~= path_views(before) + path_views(found));
                }
            },
            Err(err) => {
                proof {
                    assert(path_views(paths@) =~= path_views(paths@) + self.paths_from(
                        destination_point.spec_id(),
                        previous_path@.push(starting_point.spec_id()),
                    ));
                }
                Self::panic_if_error_is_not_path_not_found(err);
            },
        }
    }
}

} // verus!
