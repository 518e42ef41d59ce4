use nbody::fmm_adap::{Expansions, Interaction, Node, MAXLVL, MAX_STAR};
use nbody::quadrant::{Body, Quadrant, PATH_LEN};

fn body(id: usize, first: &[Quadrant]) -> Body {
    let mut path = [Quadrant::LowXLowY; PATH_LEN];
    for (d, q) in first.iter().enumerate() {
        path[d] = *q;
    }
    Body { id, path }
}

fn leaf_sizes(n: &Node<u32>, out: &mut Vec<usize>) {
    match n {
        Node::Empty => {}
        Node::Internal { q0, q1, q2, q3, .. } => {
            leaf_sizes(q0, out);
            leaf_sizes(q1, out);
            leaf_sizes(q2, out);
            leaf_sizes(q3, out);
        }
        Node::Leaf { star, .. } => out.push(star.len()),
    }
}

fn children(n: &Node<u32>) -> [&Node<u32>; 4] {
    match n {
        Node::Internal { q0, q1, q2, q3, .. } => [q0, q1, q2, q3],
        _ => panic!("not an internal box"),
    }
}

#[test]
fn new_keeps_every_star() {
    let qs = [
        Quadrant::LowXLowY,
        Quadrant::HighXLowY,
        Quadrant::LowXHighY,
        Quadrant::HighXHighY,
    ];
    let mut stars = Vec::new();
    for i in 0..200usize {
        let path: Vec<Quadrant> = (0..6).map(|d| qs[(i >> d) % 4]).collect();
        stars.push(body(i, &path));
    }
    let tree: Node<u32> = Node::new(stars, 0);
    let mut ids = tree.collapse();
    assert_eq!(ids.len(), 200);
    ids.sort();
    assert_eq!(ids, (0..200).collect::<Vec<_>>());
}

#[test]
fn collapse_lists_children_in_quadrant_order() {
    let stars = vec![
        body(0, &[Quadrant::HighXHighY]),
        body(1, &[Quadrant::LowXLowY]),
        body(2, &[Quadrant::LowXHighY]),
        body(3, &[Quadrant::HighXLowY]),
        body(4, &[Quadrant::LowXLowY]),
    ];
    let tree: Node<u32> = Node::new(stars, 0);
    assert_eq!(tree.collapse(), vec![1, 4, 3, 2, 0]);
    let c = children(&tree);
    assert!(matches!(c[0], Node::Leaf { star, .. } if star.len() == 2));
}

#[test]
fn leaf_holds_max_star_stars_before_splitting() {
    let stars: Vec<Body> = (0..MAX_STAR).map(|i| body(i, &[Quadrant::LowXLowY])).collect();
    let tree: Node<u32> = Node::new(stars, 0);
    let c = children(&tree);
    assert!(matches!(c[0], Node::Leaf { star, .. } if star.len() == MAX_STAR));
    assert!(matches!(c[1], Node::Empty));
}

#[test]
fn full_leaf_splits_and_redistributes() {
    let mut stars: Vec<Body> = (0..MAX_STAR)
        .map(|i| body(i, &[Quadrant::LowXLowY, if i % 2 == 0 { Quadrant::LowXLowY } else { Quadrant::HighXHighY }]))
        .collect();
    stars.push(body(MAX_STAR, &[Quadrant::LowXLowY, Quadrant::HighXLowY]));
    let tree: Node<u32> = Node::new(stars, 0);
    let c = children(&tree);
    let g = children(c[0]);
    assert!(matches!(g[0], Node::Leaf { star, .. } if star.len() == 10));
    assert!(matches!(g[1], Node::Leaf { star, .. } if star.len() == 1));
    assert!(matches!(g[2], Node::Empty));
    assert!(matches!(g[3], Node::Leaf { star, .. } if star.len() == 10));
    let mut ids = tree.collapse();
    ids.sort();
    assert_eq!(ids, (0..=MAX_STAR).collect::<Vec<_>>());
}

#[test]
fn coincident_stars_stop_splitting_at_maxlvl() {
    let stars: Vec<Body> = (0..(MAX_STAR + 5)).map(|i| body(i, &[])).collect();
    let tree: Node<u32> = Node::new(stars, 0);
    let mut sizes = Vec::new();
    leaf_sizes(&tree, &mut sizes);
    assert_eq!(sizes.iter().sum::<usize>(), MAX_STAR + 5);
    assert_eq!(sizes.len(), 1);
    assert_eq!(tree.collapse().len(), MAX_STAR + 5);
}

#[test]
fn push_down_at_maxlvl_appends_to_a_full_leaf() {
    let stars: Vec<Body> = (0..MAX_STAR).map(|i| body(i, &[])).collect();
    let mut leaf: Node<u32> = Node::Leaf { star: stars, multi: None };
    leaf.push_down(body(99, &[Quadrant::HighXHighY]), 3, MAXLVL);
    assert!(matches!(&leaf, Node::Leaf { star, .. } if star.len() == MAX_STAR + 1));
    leaf.push_down(body(100, &[Quadrant::HighXHighY]), 3, 3);
    assert!(matches!(&leaf, Node::Internal { .. }));
    assert_eq!(leaf.collapse().len(), MAX_STAR + 2);
}

#[test]
fn empty_box_becomes_a_leaf() {
    let mut n: Node<u32> = Node::Empty;
    n.push_down(body(7, &[]), 0, 0);
    assert!(matches!(&n, Node::Leaf { star, multi: None } if star.len() == 1 && star[0].id == 7));
}

#[test]
fn multipole_is_read_and_updated_in_place() {
    let mut n: Node<u32> = Node::Leaf { star: vec![body(1, &[])], multi: Some(4) };
    assert_eq!(*n.multipole(), 4);
    *n.multipole_mut() += 3;
    assert_eq!(*n.multipole(), 7);
    assert_eq!(n.collapse(), vec![1]);
}

/// Separates boxes whose cells differ in their first quadrant, once both
/// are at least `depth` deep.
fn by_first_quadrant(depth: usize) -> impl Fn(&Vec<Quadrant>, &Vec<Quadrant>) -> bool {
    move |target: &Vec<Quadrant>, source: &Vec<Quadrant>| {
        target.len() >= depth && source.len() >= depth && !target.is_empty() && !source.is_empty()
            && target[0] != source[0]
    }
}

fn never(_: &Vec<Quadrant>, _: &Vec<Quadrant>) -> bool {
    false
}

fn always(_: &Vec<Quadrant>, _: &Vec<Quadrant>) -> bool {
    true
}

fn node_at<'a>(n: &'a Node<u32>, cell: &[Quadrant]) -> &'a Node<u32> {
    cell.iter().fold(n, |n, q| children(n)[q.index() as usize])
}

fn stars_of(n: &Node<u32>) -> usize {
    n.collapse().len()
}

fn sample_tree() -> Node<u32> {
    let qs = [
        Quadrant::LowXLowY,
        Quadrant::HighXLowY,
        Quadrant::LowXHighY,
        Quadrant::HighXHighY,
    ];
    let stars: Vec<Body> = (0..90usize)
        .map(|i| body(i, &[qs[i % 3], qs[(i / 3) % 4], qs[(i / 12) % 4]]))
        .collect();
    Node::new(stars, 0)
}

/// Every (target, source) pair of stars, counted over the interactions.
fn pairs_counted(t: &Node<u32>, s: &Node<u32>, list: &[Interaction]) -> Vec<(usize, usize)> {
    let mut pairs = Vec::new();
    for it in list {
        let (tc, sc) = match it {
            Interaction::Far { target, source } => (target, source),
            Interaction::Near { target, source } => (target, source),
        };
        for a in node_at(t, tc).collapse() {
            for b in node_at(s, sc).collapse() {
                pairs.push((a, b));
            }
        }
    }
    pairs.sort();
    pairs
}

#[test]
fn interactions_account_for_every_pair_once() {
    let tree = sample_tree();
    let source = tree.clone();
    let all: Vec<(usize, usize)> = (0..90).flat_map(|a| (0..90).map(move |b| (a, b))).collect();
    for depth in 0..4 {
        let list = tree.interact(&source, &by_first_quadrant(depth));
        assert_eq!(pairs_counted(&tree, &source, &list), all);
    }
    assert_eq!(pairs_counted(&tree, &source, &tree.interact(&source, &never)), all);
}

#[test]
fn near_interactions_join_two_leaves() {
    let tree = sample_tree();
    let source = tree.clone();
    let list = tree.interact(&source, &never);
    assert!(!list.is_empty());
    for it in &list {
        match it {
            Interaction::Near { target, source: sc } => {
                assert!(matches!(node_at(&tree, target), Node::Leaf { .. }));
                assert!(matches!(node_at(&source, sc), Node::Leaf { .. }));
            }
            Interaction::Far { .. } => panic!("nothing is separated"),
        }
    }
}

#[test]
fn separated_roots_interact_once_through_the_expansion() {
    let tree = sample_tree();
    let source = tree.clone();
    let list = tree.interact(&source, &always);
    assert_eq!(list.len(), 1);
    assert!(matches!(&list[0], Interaction::Far { target, source } if target.is_empty() && source.is_empty()));
    assert_eq!(stars_of(&tree), 90);
}

/// Whether every split box below `n` holds more than `MAX_STAR` stars.
fn split_boxes_are_full(n: &Node<u32>) -> bool {
    match n {
        Node::Internal { q0, q1, q2, q3, .. } => [q0, q1, q2, q3].into_iter().all(|c| {
            let full = !matches!(**c, Node::Internal { .. }) || c.collapse().len() > MAX_STAR;
            full && split_boxes_are_full(c)
        }),
        _ => true,
    }
}

#[test]
fn only_boxes_with_more_than_max_star_stars_are_split() {
    assert!(split_boxes_are_full(&sample_tree()));
    let crowded: Vec<Body> = (0..300usize)
        .map(|i| body(i, &[Quadrant::HighXLowY, if i % 7 == 0 { Quadrant::LowXLowY } else { Quadrant::HighXHighY }]))
        .collect();
    let tree: Node<u32> = Node::new(crowded, 0);
    assert!(split_boxes_are_full(&tree));
    assert_eq!(tree.collapse().len(), 300);
}

/// Expansions that count stars: a leaf's is its number of stars, a parent
/// adds its children's, and the downward pass adds the parent's count into
/// each child's.
fn counting() -> Expansions<
    impl Fn() -> u32,
    impl Fn(&Vec<Body>, &Vec<Quadrant>) -> u32,
    impl Fn(&u32, &u32, &Vec<Quadrant>, &Vec<Quadrant>) -> u32,
    impl Fn(&u32, &u32, &Vec<Quadrant>, &Vec<Quadrant>) -> u32,
> {
    Expansions {
        empty: || 0u32,
        of_stars: |stars: &Vec<Body>, _cell: &Vec<Quadrant>| stars.len() as u32,
        m2m: |parent: &u32, child: &u32, child_cell: &Vec<Quadrant>, cell: &Vec<Quadrant>| {
            assert_eq!(child_cell.len(), cell.len() + 1);
            assert_eq!(&child_cell[..cell.len()], &cell[..]);
            *parent + *child
        },
        l2l: |child: &u32, parent: &u32, cell: &Vec<Quadrant>, child_cell: &Vec<Quadrant>| {
            assert_eq!(child_cell.len(), cell.len() + 1);
            *child + *parent
        },
    }
}

fn all_expanded(n: &Node<u32>) -> bool {
    match n {
        Node::Empty => true,
        Node::Leaf { multi, .. } => multi.is_some(),
        Node::Internal { q0, q1, q2, q3, multi } => {
            multi.is_some() && [q0, q1, q2, q3].into_iter().all(|c| all_expanded(c))
        }
    }
}

#[test]
fn upward_pass_gives_every_box_holding_stars_an_expansion() {
    let mut tree = sample_tree();
    tree.p2m(&Vec::new(), &counting());
    assert!(all_expanded(&tree));
    assert_eq!(*tree.multipole(), 90);
    for c in children(&tree) {
        if !matches!(c, Node::Empty) {
            assert_eq!(*c.multipole() as usize, c.collapse().len());
        }
    }
    assert_eq!(tree.collapse().len(), 90);
}

#[test]
fn downward_pass_adds_each_parent_into_its_children() {
    let mut tree = sample_tree();
    tree.p2m(&Vec::new(), &counting());
    let before: Vec<u32> = children(&tree)
        .iter()
        .map(|c| if matches!(c, Node::Empty) { 0 } else { *c.multipole() })
        .collect();
    tree.l2l(&Vec::new(), &counting());
    assert_eq!(*tree.multipole(), 90);
    for (c, b) in children(&tree).iter().zip(before) {
        if !matches!(c, Node::Empty) {
            assert_eq!(*c.multipole(), b + 90);
        }
    }
    assert!(all_expanded(&tree));
}

#[test]
fn clone_keeps_every_expansion() {
    let mut tree = sample_tree();
    tree.p2m(&Vec::new(), &counting());
    let copy = tree.clone();
    assert!(all_expanded(&copy));
    assert_eq!(*copy.multipole(), 90);
    for (c, d) in children(&tree).iter().zip(children(&copy)) {
        assert_eq!(c.collapse(), d.collapse());
        if !matches!(c, Node::Empty) {
            assert_eq!(c.multipole(), d.multipole());
        }
    }
}

#[test]
fn node_at_follows_the_cell_and_stops_below_leaves() {
    let tree = sample_tree();
    let first = vec![Quadrant::LowXLowY];
    let found = tree.node_at(&first).unwrap();
    assert_eq!(found.collapse(), node_at(&tree, &first).collapse());
    assert!(tree.node_at(&Vec::new()).is_some());
    let leaf: Node<u32> = Node::Leaf { star: vec![body(0, &[])], multi: None };
    assert!(leaf.node_at(&first).is_none());
}

#[test]
fn multipole_at_mut_updates_only_that_box() {
    let mut tree = sample_tree();
    tree.p2m(&Vec::new(), &counting());
    let first = vec![Quadrant::LowXLowY];
    let before = *tree.node_at(&first).unwrap().multipole();
    *tree.multipole_at_mut(&first) += 1000;
    assert_eq!(*tree.node_at(&first).unwrap().multipole(), before + 1000);
    assert_eq!(*tree.multipole(), 90);
}

#[test]
fn interactions_come_in_dual_walk_order() {
    let tree = sample_tree();
    let source = sample_tree();
    let list = tree.interact(&source, &never);
    // With nothing separated, the walk first meets the first target leaf
    // against the first source leaf, in quadrant order.
    match &list[0] {
        Interaction::Near { target, source } => {
            assert!(target.iter().all(|q| *q == Quadrant::LowXLowY));
            assert!(source.iter().all(|q| *q == Quadrant::LowXLowY));
        }
        Interaction::Far { .. } => panic!("nothing is separated"),
    }
}
