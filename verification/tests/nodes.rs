use netpaths::node::{NamedPoint, Node, NodeBuildError, NodeBuilder};

const PORTUGAL: &str = "Portugal";
const SPAIN: &str = "Spain";
const FRANCE: &str = "France";
const ICELAND: &str = "Iceland";
const AUSTRIA: &str = "Austria";

#[test]
fn it_should_return_false_if_no_node_is_connected() {
    let iceland = get_country(ICELAND);
    let austria = get_country(AUSTRIA);

    let iceland_node = non_connected_node(&iceland);

    assert_eq!(iceland_node.is_connected_to(&austria), false);
}

#[test]
fn it_should_return_true_if_is_connected_to_node() {
    let portugal = get_country(PORTUGAL);
    let spain = get_country(SPAIN);

    let portugal_node = connected_node(&portugal, &spain);

    assert_eq!(portugal_node.is_connected_to(&spain), true);
}

#[test]
fn node_is_connected_should_return_false_if_no_node_is_connected() {
    let iceland = get_country(ICELAND);
    let austria = get_country(AUSTRIA);

    let iceland_node = non_connected_node(&iceland);

    assert_eq!(iceland_node.is_connected_to(&austria), false);
}

#[test]
fn node_is_connected_should_return_true_if_is_connected_to_node() {
    let portugal = get_country(PORTUGAL);
    let spain = get_country(SPAIN);

    let portugal_node = connected_node(&portugal, &spain);

    assert_eq!(portugal_node.is_connected_to(&spain), true);
}

#[test]
fn two_nodes_of_the_same_point_with_same_connections_should_be_equal() {
    let portugal = get_country(PORTUGAL);
    let spain = get_country(SPAIN);

    let portugal_node = connected_node(&portugal, &spain);
    let other_portugal_node = connected_node(&portugal, &spain);

    assert_eq!(portugal_node, other_portugal_node);
}

#[test]
fn builder_should_build_a_connected_node() {
    let portugal = get_country(PORTUGAL);
    let spain = get_country(SPAIN);

    let portugal_node = NodeBuilder::new()
        .point(&portugal)
        .connected_point(&spain)
        .build()
        .expect("should build portugal node");

    let expected_portugal_node = connected_node(&portugal, &spain);

    assert_eq!(portugal_node, expected_portugal_node);
}

#[test]
fn builder_should_add_each_connection_only_once() {
    let portugal = get_country(PORTUGAL);
    let spain = get_country(SPAIN);
    let france = get_country(FRANCE);

    let spain_node = NodeBuilder::new()
        .point(&spain)
        .connected_point(&portugal)
        .connected_point(&portugal)
        .connected_point(&france)
        .build()
        .expect("should build portugal node");

    let expected_spain_node = NodeBuilder::new()
        .point(&spain)
        .connected_point(&portugal)
        .connected_point(&france)
        .build()
        .expect("should build expected spain node");

    println!("pero que me estas contando {:?}", spain_node);
    assert_eq!(
        spain_node, expected_spain_node,
        "Spain should be connected once to Portugal and France"
    );
}

#[test]
fn builder_should_fail_if_there_is_no_point() {
    let country_node_builder: NodeBuilder<NamedPoint> = NodeBuilder::new();

    assert_eq!(
        country_node_builder.build(),
        Err(NodeBuildError::MissingPoint),
        "Should specify a point"
    );
}

#[test]
fn builder_should_fail_if_point_is_connected_to_itself() {
    let iceland = get_country(ICELAND);

    let builder = NodeBuilder::new();
    let builder = builder.point(&iceland);
    let builder = builder.connected_point(&iceland);

    assert_eq!(
        builder.build(),
        Err(NodeBuildError::SelfConnection),
        "Point cannot be connected to itself"
    );
}

fn get_country(name: &str) -> NamedPoint {
    NamedPoint::new(name)
}

fn connected_node(from: &NamedPoint, to: &NamedPoint) -> Node<NamedPoint> {
    NodeBuilder::new()
        .point(from)
        .connected_point(to)
        .build()
        .expect("node should build")
}

fn non_connected_node(point: &NamedPoint) -> Node<NamedPoint> {
    NodeBuilder::new().point(point).build().expect("node should build")
}
