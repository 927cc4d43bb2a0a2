use blackmamba_paint::path::{EditablePath, JoinMode, Midpoint, PathError, PathNode};

#[derive(Debug, Clone, Copy, PartialEq)]
struct Pt {
    x: f64,
    y: f64,
}

impl Midpoint for Pt {
    fn midpoint(self, other: Self) -> Self {
        Pt { x: (self.x + other.x) * 0.5, y: (self.y + other.y) * 0.5 }
    }
}

fn pt(x: f64, y: f64) -> Pt {
    Pt { x, y }
}

fn positions(path: &EditablePath<Pt>) -> Vec<Pt> {
    path.nodes.iter().map(|node| node.position).collect()
}

#[test]
fn subdivide_adds_control_without_changing_endpoints() {
    let mut path = EditablePath::from_polyline(vec![pt(0.0, 0.0), pt(10.0, 10.0), pt(20.0, 0.0)]);
    path.subdivide(1);

    assert_eq!(path.nodes.len(), 5);
    assert_eq!(path.nodes.first().unwrap().position, pt(0.0, 0.0));
    assert_eq!(path.nodes.last().unwrap().position, pt(20.0, 0.0));
    assert_eq!(path.nodes[1].position, pt(5.0, 5.0));
}

#[test]
fn subdividing_a_closed_path_also_splits_the_closing_segment() {
    let mut path = EditablePath::from_polyline(vec![pt(0.0, 0.0), pt(4.0, 0.0), pt(4.0, 4.0)]);
    path.closed = true;
    path.subdivide(2);
    assert_eq!(path.nodes.len(), 12);
    assert_eq!(path.nodes[0].position, pt(0.0, 0.0));
    assert_eq!(path.nodes[4].position, pt(4.0, 0.0));
    assert_eq!(path.nodes[8].position, pt(4.0, 4.0));
    assert_eq!(path.nodes[10].position, pt(2.0, 2.0));
}

#[test]
fn short_paths_are_not_subdivided() {
    let mut path = EditablePath::from_polyline(vec![pt(1.0, 1.0)]);
    path.subdivide(3);
    assert_eq!(positions(&path), vec![pt(1.0, 1.0)]);
}

#[test]
fn divide_and_join_restore_the_same_polyline_positions() {
    let path = EditablePath::from_polyline(vec![
        pt(0.0, 0.0),
        pt(10.0, 10.0),
        pt(20.0, 0.0),
        pt(30.0, 5.0),
    ]);
    let original_positions = positions(&path);

    let (left, right) = path.divide_at(2).unwrap();
    assert_eq!(positions(&left), vec![pt(0.0, 0.0), pt(10.0, 10.0), pt(20.0, 0.0)]);
    assert_eq!(positions(&right), vec![pt(20.0, 0.0), pt(30.0, 5.0)]);
    let joined = left.joined_by(&right, JoinMode::TailHead).unwrap();

    assert_eq!(positions(&joined), original_positions);
}

#[test]
fn divide_rejects_closed_paths_and_endpoints() {
    let mut path = EditablePath::from_polyline(vec![pt(0.0, 0.0), pt(1.0, 0.0), pt(2.0, 0.0)]);
    assert_eq!(path.divide_at(0).unwrap_err(), PathError::InvalidDivideIndex(0));
    assert_eq!(path.divide_at(2).unwrap_err(), PathError::InvalidDivideIndex(2));
    assert_eq!(path.divide_at(usize::MAX).unwrap_err(), PathError::InvalidDivideIndex(usize::MAX));
    path.closed = true;
    assert_eq!(path.divide_at(1).unwrap_err(), PathError::CannotDivideClosedPath);
}

#[test]
fn add_and_remove_points() {
    let mut path = EditablePath::from_polyline(vec![pt(0.0, 0.0), pt(2.0, 0.0)]);
    path.add_point(1, pt(1.0, 0.0)).unwrap();
    assert_eq!(positions(&path), vec![pt(0.0, 0.0), pt(1.0, 0.0), pt(2.0, 0.0)]);
    assert_eq!(path.add_point(4, pt(9.0, 9.0)), Err(PathError::InvalidIndex(4)));
    let removed = path.remove_point(1).unwrap();
    assert_eq!(removed, PathNode::new(pt(1.0, 0.0)));
    assert_eq!(positions(&path), vec![pt(0.0, 0.0), pt(2.0, 0.0)]);
    assert_eq!(path.remove_point(2).unwrap_err(), PathError::InvalidIndex(2));
}

#[test]
fn joining_tail_to_tail_reverses_the_second_path_and_swaps_handles() {
    let a = EditablePath::from_polyline(vec![pt(0.0, 0.0), pt(1.0, 0.0)]);
    let mut b = EditablePath::from_polyline(vec![pt(3.0, 0.0), pt(2.0, 0.0), pt(1.0, 0.0)]);
    b.nodes[1].in_handle = Some(pt(2.5, 1.0));
    let joined = a.joined_by(&b, JoinMode::TailTail).unwrap();
    assert_eq!(positions(&joined), vec![pt(0.0, 0.0), pt(1.0, 0.0), pt(2.0, 0.0), pt(3.0, 0.0)]);
    assert_eq!(joined.nodes[2].out_handle, Some(pt(2.5, 1.0)));
    assert_eq!(joined.nodes[2].in_handle, None);
    assert!(!joined.closed);
}

#[test]
fn joining_head_to_head_and_head_to_tail() {
    let a = EditablePath::from_polyline(vec![pt(1.0, 0.0), pt(2.0, 0.0)]);
    let b = EditablePath::from_polyline(vec![pt(1.0, 0.0), pt(0.0, 0.0)]);
    let head_head = a.joined_by(&b, JoinMode::HeadHead).unwrap();
    assert_eq!(positions(&head_head), vec![pt(2.0, 0.0), pt(1.0, 0.0), pt(0.0, 0.0)]);
    let c = EditablePath::from_polyline(vec![pt(-1.0, 0.0), pt(1.0, 0.0)]);
    let head_tail = a.joined_by(&c, JoinMode::HeadTail).unwrap();
    assert_eq!(positions(&head_tail), vec![pt(-1.0, 0.0), pt(1.0, 0.0), pt(2.0, 0.0)]);
}

#[test]
fn joining_requires_open_non_empty_paths() {
    let a = EditablePath::from_polyline(vec![pt(0.0, 0.0)]);
    let empty: EditablePath<Pt> = EditablePath::from_polyline(Vec::new());
    assert_eq!(a.joined_by(&empty, JoinMode::TailHead).unwrap_err(), PathError::EmptyPath);
    assert_eq!(a.join_endpoints(&empty).unwrap_err(), PathError::EmptyPath);
    let mut closed = EditablePath::from_polyline(vec![pt(0.0, 0.0)]);
    closed.closed = true;
    assert_eq!(a.joined_by(&closed, JoinMode::TailHead).unwrap_err(), PathError::CannotJoinClosedPath);
    let b = EditablePath::from_polyline(vec![pt(5.0, 0.0), pt(6.0, 1.0)]);
    assert_eq!(
        a.join_endpoints(&b).unwrap(),
        (pt(0.0, 0.0), pt(0.0, 0.0), pt(5.0, 0.0), pt(6.0, 1.0))
    );
}

#[test]
fn every_inserted_node_is_the_midpoint_of_its_neighbours_when_inserted() {
    let mut path = EditablePath::from_polyline(vec![pt(0.0, 0.0), pt(8.0, 0.0), pt(8.0, 16.0)]);
    path.subdivide(2);
    let p = positions(&path);
    assert_eq!(p.len(), 9);
    assert_eq!(p[2], pt(4.0, 0.0));
    assert_eq!(p[1], pt(2.0, 0.0));
    assert_eq!(p[3], pt(6.0, 0.0));
    assert_eq!(p[4], pt(8.0, 0.0));
    assert_eq!(p[6], pt(8.0, 8.0));
    assert_eq!(p[7], pt(8.0, 12.0));
    assert_eq!(p[8], pt(8.0, 16.0));

    let mut closed = EditablePath::from_polyline(vec![pt(0.0, 0.0), pt(4.0, 0.0)]);
    closed.closed = true;
    closed.subdivide(1);
    assert_eq!(positions(&closed), vec![pt(0.0, 0.0), pt(2.0, 0.0), pt(4.0, 0.0), pt(2.0, 0.0)]);
}
