use nbody::fmm::{create_tree, run, Node, MAXLVL};
use nbody::quadrant::{Body, Quadrant, PATH_LEN};

fn body(id: usize, first: &[Quadrant]) -> Body {
    let mut path = [Quadrant::LowXLowY; PATH_LEN];
    for (d, q) in first.iter().enumerate() {
        path[d] = *q;
    }
    Body { id, path }
}

fn height(n: &Node) -> usize {
    match n {
        Node::Leaf { .. } => 0,
        Node::Internal { q0, .. } => 1 + height(q0),
    }
}

fn leaves(n: &Node, out: &mut Vec<Vec<usize>>) {
    match n {
        Node::Leaf { star } => out.push(star.iter().map(|b| b.id).collect()),
        Node::Internal { q0, q1, q2, q3 } => {
            leaves(q0, out);
            leaves(q1, out);
            leaves(q2, out);
            leaves(q3, out);
        }
    }
}

#[test]
fn create_internal_cuts_down_to_maxlvl() {
    assert!(Node::create_internal(MAXLVL).is_leaf());
    assert_eq!(height(&Node::create_internal(0)), MAXLVL);
    let mut ls = Vec::new();
    leaves(&Node::create_internal(1), &mut ls);
    assert_eq!(ls.len(), 16);
    assert!(Node::create_internal(1).is_grandfather());
    assert!(!Node::create_internal(0).is_grandfather());
    assert!(!Node::create_internal(2).is_grandfather());
}

#[test]
fn stars_fall_into_the_leaf_of_their_path() {
    let hh = Quadrant::HighXHighY;
    let stars = vec![
        body(0, &[hh, hh, hh, hh]),
        body(1, &[Quadrant::LowXLowY; 4]),
        body(2, &[hh, hh, hh, hh]),
    ];
    let tree = Node::new(stars, 0);
    assert_eq!(height(&tree), MAXLVL + 1);
    let mut ls = Vec::new();
    leaves(&tree, &mut ls);
    assert_eq!(ls.len(), 256);
    assert_eq!(ls[0], vec![1]);
    assert_eq!(ls[255], vec![0, 2]);
    assert_eq!(ls.iter().map(|l| l.len()).sum::<usize>(), 3);
}

#[test]
fn passes_leave_the_tree_unchanged() {
    let mut tree = Node::new(vec![body(5, &[Quadrant::HighXLowY; 4])], 1);
    tree.p2m();
    tree.gravity();
    let mut ls = Vec::new();
    leaves(&tree, &mut ls);
    assert_eq!(ls.len(), 64);
    assert_eq!(ls.iter().filter(|l| **l == vec![5]).count(), 1);
    let mut leaf = Node::Leaf { star: vec![body(3, &[])] };
    leaf.l2l();
    assert!(leaf.is_leaf());
}

#[test]
fn children_are_handed_out_in_quadrant_order() {
    let mut tree = Node::new(vec![body(9, &[Quadrant::LowXHighY, Quadrant::LowXLowY])], 2);
    let (_, _, c2, _) = tree.get_children();
    let mut ls = Vec::new();
    leaves(c2, &mut ls);
    assert_eq!(ls, vec![vec![9], vec![], vec![], vec![]]);
}

#[test]
fn test_tree_holds_its_one_star() {
    let tree = create_tree(body(0, &[Quadrant::HighXHighY; 4]));
    let mut ls = Vec::new();
    leaves(&tree, &mut ls);
    assert_eq!(ls.len(), 256);
    assert_eq!(ls[255], vec![0]);
    run();
}

#[test]
fn m2l_pairs_every_two_grandchildren_box_by_box() {
    let tree = Node::new(vec![], 0);
    let pairs = tree.m2l_pairs(&Vec::new());
    // The root and each box above the last split level pair their sixteen
    // grandchildren two by two: 1 + 4 + 16 boxes, 16 * 15 ordered pairs each.
    assert_eq!(pairs.len(), (1 + 4 + 16) * 16 * 15);
    assert_eq!(pairs[0], (vec![Quadrant::LowXLowY, Quadrant::LowXLowY], vec![Quadrant::LowXLowY, Quadrant::HighXLowY]));
    assert_eq!(pairs[15], (vec![Quadrant::LowXLowY, Quadrant::HighXLowY], vec![Quadrant::LowXLowY, Quadrant::LowXLowY]));
    assert!(pairs.iter().all(|(a, b)| a != b));
    let below_first = &pairs[240];
    assert_eq!(below_first.0, vec![Quadrant::LowXLowY, Quadrant::LowXLowY, Quadrant::LowXLowY]);
}

#[test]
fn m2l_pairs_nothing_above_leaves() {
    let tree = Node::create_internal(MAXLVL - 1);
    assert_eq!(tree.m2l_pairs(&Vec::new()).len(), 0);
}

#[test]
fn readiness_follows_the_first_child() {
    let full = Node::new(vec![], 0);
    assert!(full.is_m2l_ready());
    let lopsided = Node::Internal {
        q0: Box::new(Node::create_internal(MAXLVL - 1)),
        q1: Box::new(Node::Leaf { star: vec![] }),
        q2: Box::new(Node::create_internal(MAXLVL - 1)),
        q3: Box::new(Node::create_internal(MAXLVL - 1)),
    };
    assert!(!lopsided.is_m2l_ready());
    let stops_at_once = Node::Internal {
        q0: Box::new(Node::Leaf { star: vec![] }),
        q1: Box::new(Node::create_internal(MAXLVL - 1)),
        q2: Box::new(Node::Leaf { star: vec![] }),
        q3: Box::new(Node::Leaf { star: vec![] }),
    };
    assert!(stops_at_once.is_m2l_ready());
    assert_eq!(stops_at_once.m2l_pairs(&Vec::new()).len(), 0);
}

#[test]
fn node_at_finds_boxes_by_cell() {
    let tree = Node::new(vec![body(5, &[Quadrant::HighXHighY, Quadrant::LowXLowY])], 0);
    let cell = vec![Quadrant::HighXHighY, Quadrant::LowXLowY, Quadrant::LowXLowY, Quadrant::LowXLowY];
    match tree.node_at(&cell) {
        Some(Node::Leaf { star }) => assert_eq!(star.len(), 1),
        _ => panic!("expected the leaf of the star"),
    }
    let too_deep = vec![Quadrant::LowXLowY; 5];
    assert!(tree.node_at(&too_deep).is_none());
}
