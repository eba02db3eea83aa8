use netpaths::node::NamedPoint;
use netpaths::path::{Path, PathBuilder};

#[test]
fn builder_should_be_able_to_build_a_path_setting_points_one_by_one() {
    let path = PathBuilder::new()
        .point(&simple_point(8))
        .point(&simple_point(5))
        .build()
        .expect("Builder should not throw if all attributes are provided");

    assert_eq!(
        format_path_with_dashes_between_ids(path),
        "8-5",
        "Should build a path with all points in order"
    );
}

#[test]
fn builder_should_be_able_to_build_a_path_setting_points_as_vec() {
    let path = PathBuilder::new()
        .points(vec![simple_point(8), simple_point(5)])
        .build()
        .expect("Builder should not throw if all attributes are provided");

    assert_eq!(
        format_path_with_dashes_between_ids(path),
        "8-5",
        "Should build a path with all points in order"
    );
}

#[test]
fn builder_should_thrown_if_no_points_are_provided() {
    let builder: PathBuilder<NamedPoint> = PathBuilder::new();
    assert!(
        builder.build().is_err(),
        "Should throw an error if no point is provided"
    );
}

fn simple_point(id: u8) -> NamedPoint {
    NamedPoint::new(&id.to_string())
}

fn format_path_with_dashes_between_ids(path: Path<NamedPoint>) -> String {
    path.render()
}
