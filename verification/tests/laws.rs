use netpaths::net::Net;
use netpaths::node::{NamedPoint, Node, NodeBuilder, Point};
use netpaths::path::{Path, PathBuilder};

#[test]
fn named_points_compare_by_identifier() {
    let lisbon = NamedPoint::new("Lisbon");
    let lisbon_again = NamedPoint::new("Lisbon");
    let porto = NamedPoint::new("Porto");

    assert!(lisbon.is_same(&lisbon_again));
    assert!(!lisbon.is_same(&porto));
    assert_eq!(lisbon.id(), "Lisbon");
    assert!(lisbon.duplicate().is_same(&lisbon));
}

#[test]
fn paths_know_their_points_and_their_end() {
    let a = NamedPoint::new("A");
    let b = NamedPoint::new("B");
    let c = NamedPoint::new("C");

    let path = PathBuilder::new()
        .point(&a)
        .point(&b)
        .build()
        .expect("path should build");

    assert!(!path.do_not_contains(&a));
    assert!(!path.do_not_contains(&b));
    assert!(path.do_not_contains(&c));
    assert!(path.ends_with(&b));
    assert!(!path.ends_with(&a));
    assert_eq!(path.render(), "A-B");
}

#[test]
fn a_batch_of_connections_is_deduplicated_like_single_additions() {
    let spain = NamedPoint::new("Spain");
    let portugal = NamedPoint::new("Portugal");
    let france = NamedPoint::new("France");

    let from_batch = NodeBuilder::new()
        .point(&spain)
        .connected_points(&vec![
            portugal.duplicate(),
            portugal.duplicate(),
            france.duplicate(),
        ])
        .build()
        .expect("node should build");

    let one_by_one = NodeBuilder::new()
        .point(&spain)
        .connected_point(&portugal)
        .connected_point(&france)
        .build()
        .expect("node should build");

    assert_eq!(from_batch, one_by_one);
}

// Every path reported for the richly wired four-point net starts at A, ends
// at C, repeats no point, and each consecutive pair is a recorded connection.
#[test]
fn found_paths_are_simple_paths_of_the_net() {
    let net = meshed_net();
    let a = NamedPoint::new("A");
    let c = NamedPoint::new("C");

    let paths = net.find_paths(&a, &c).expect("paths should be found");

    assert!(!paths.is_empty());
    for path in &paths {
        let stops: Vec<String> = path.render().split('-').map(String::from).collect();
        assert_eq!(stops.first().expect("a path has a first stop"), "A");
        assert_eq!(stops.last().expect("a path has a last stop"), "C");
        for (i, stop) in stops.iter().enumerate() {
            for later in &stops[i + 1..] {
                assert_ne!(stop, later, "a simple path repeats no point");
            }
        }
        for pair in stops.windows(2) {
            assert!(
                connection_recorded(&net, &pair[0], &pair[1]),
                "every step of a found path is a recorded connection"
            );
        }
    }
}

// Searching an unmodified net twice with the same endpoints yields the same
// set of paths.
#[test]
fn searching_twice_yields_the_same_paths() {
    let net = meshed_net();
    let a = NamedPoint::new("A");
    let c = NamedPoint::new("C");

    let first = rendered_sorted(net.find_paths(&a, &c).expect("paths should be found"));
    let second = rendered_sorted(net.find_paths(&a, &c).expect("paths should be found"));

    assert_eq!(first, second);
}

fn meshed_net() -> Net<NamedPoint> {
    let a = NamedPoint::new("A");
    let b = NamedPoint::new("B");
    let c = NamedPoint::new("C");
    let d = NamedPoint::new("D");

    let node_a = node_connected_to(&a, vec![b.duplicate(), d.duplicate()]);
    let node_b = node_connected_to(&b, vec![a.duplicate(), c.duplicate(), d.duplicate()]);
    let node_c = node_connected_to(&c, vec![b.duplicate(), d.duplicate()]);
    let node_d = node_connected_to(&d, vec![a.duplicate(), c.duplicate(), b.duplicate()]);

    Net {
        nodes: vec![node_a, node_b, node_c, node_d],
    }
}

fn connection_recorded(net: &Net<NamedPoint>, from: &str, to: &str) -> bool {
    let from_point = NamedPoint::new(from);
    let to_point = NamedPoint::new(to);
    net.nodes
        .iter()
        .any(|node| node.point_is(&from_point) && node.is_connected_to(&to_point))
}

fn node_connected_to(point: &NamedPoint, connected: Vec<NamedPoint>) -> Node<NamedPoint> {
    NodeBuilder::new()
        .point(point)
        .connected_points(&connected)
        .build()
        .expect("node should build")
}

fn rendered_sorted(paths: Vec<Path<NamedPoint>>) -> Vec<String> {
    let mut rendered: Vec<String> = paths.iter().map(|p| p.render()).collect();
    rendered.sort();
    rendered
}
