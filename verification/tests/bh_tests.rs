use nbody::bh::{create_network, Node, Probe, Pull, StarField, MAX_DEPTH};
use nbody::quadrant::{Body, Quadrant, PATH_LEN};

fn body(id: usize, first: &[Quadrant]) -> Body {
    let mut path = [Quadrant::LowXLowY; PATH_LEN];
    for (d, q) in first.iter().enumerate() {
        path[d] = *q;
    }
    Body { id, path }
}

/// Summaries are the sets of stars absorbed, one bit per star; stars
/// coincide when their indices are listed together.
fn field(
    close: Vec<(usize, usize)>,
) -> StarField<u64, impl Fn(usize) -> u64, impl Fn(&u64, usize) -> u64, impl Fn(usize, usize) -> bool> {
    StarField {
        single: |id: usize| 1u64 << id,
        empty: 0,
        absorb: |summary: &u64, id: usize| {
            assert_eq!(*summary & (1 << id), 0, "a star is absorbed twice");
            *summary | (1 << id)
        },
        coincide: move |a: usize, b: usize| close.contains(&(a, b)) || close.contains(&(b, a)),
    }
}

fn ids(n: &Node<u64>, out: &mut Vec<usize>) {
    match n {
        Node::Empty => {}
        Node::Internal { q0, q1, q2, q3, .. } => {
            ids(q0, out);
            ids(q1, out);
            ids(q2, out);
            ids(q3, out);
        }
        Node::Leaf { star, .. } => out.extend(star.iter().map(|b| b.id)),
    }
}

fn children(n: &Node<u64>) -> [&Node<u64>; 4] {
    match n {
        Node::Internal { q0, q1, q2, q3, .. } => [q0, q1, q2, q3],
        _ => panic!("not an internal box"),
    }
}

#[test]
fn first_star_makes_a_leaf() {
    let f = field(vec![]);
    let mut n = Node::new();
    n.push(body(3, &[]), 0, 3, 0, &f);
    assert!(matches!(&n, Node::Leaf { star, idx: 3, com_mass } if star.len() == 1 && *com_mass == 1 << 3));
}

#[test]
fn second_star_splits_the_leaf() {
    let f = field(vec![]);
    let mut n = Node::new();
    n.push(body(0, &[Quadrant::LowXLowY]), 0, 0, 0, &f);
    n.push(body(1, &[Quadrant::HighXHighY]), 0, 1, 0, &f);
    match &n {
        Node::Internal { com_mass, .. } => assert_eq!(*com_mass, 0b11),
        _ => panic!("expected a split"),
    }
    let c = children(&n);
    assert!(matches!(c[0], Node::Leaf { idx: 0, .. }));
    assert!(matches!(c[3], Node::Leaf { idx: 1, .. }));
    assert!(matches!(c[1], Node::Empty));
}

#[test]
fn coinciding_stars_share_a_leaf() {
    let f = field(vec![(0, 1)]);
    let mut n = Node::new();
    n.push(body(0, &[Quadrant::LowXLowY]), 0, 0, 0, &f);
    n.push(body(1, &[Quadrant::HighXHighY]), 0, 1, 0, &f);
    assert!(matches!(&n, Node::Leaf { star, com_mass, .. } if star.len() == 2 && *com_mass == 0b11));
    n.push(body(2, &[Quadrant::HighXLowY]), 0, 2, 0, &f);
    assert!(matches!(&n, Node::Leaf { star, .. } if star.len() == 3));
}

#[test]
fn deep_leaves_take_every_star() {
    let f = field(vec![]);
    let mut n = Node::new();
    n.push(body(0, &[]), 0, 0, MAX_DEPTH, &f);
    n.push(body(1, &[Quadrant::HighXHighY]), 0, 1, MAX_DEPTH, &f);
    assert!(matches!(&n, Node::Leaf { star, .. } if star.len() == 2));
}

#[test]
fn identical_paths_split_down_to_max_depth() {
    let f = field(vec![]);
    let mut n = Node::new();
    n.push(body(0, &[]), 0, 0, 0, &f);
    n.push(body(1, &[]), 0, 1, 0, &f);
    let mut out = Vec::new();
    ids(&n, &mut out);
    assert_eq!(out, vec![0, 1]);
    let mut level = 0;
    let mut cur = &n;
    while let Node::Internal { q0, com_mass, .. } = cur {
        assert_eq!(*com_mass, 0b11);
        cur = q0;
        level += 1;
    }
    assert!(matches!(cur, Node::Leaf { star, .. } if star.len() == 2));
    assert_eq!(level, 10);
}

#[test]
fn network_holds_every_star() {
    let f = field(vec![]);
    let qs = [
        Quadrant::LowXLowY,
        Quadrant::HighXLowY,
        Quadrant::LowXHighY,
        Quadrant::HighXHighY,
    ];
    let stars: Vec<Body> = (0..64usize)
        .map(|i| body(i, &[qs[i % 4], qs[(i / 4) % 4], qs[(i / 16) % 4]]))
        .collect();
    let network = create_network(&stars, &f);
    let mut out = Vec::new();
    ids(&network, &mut out);
    out.sort();
    assert_eq!(out, (0..64).collect::<Vec<_>>());
    match &network {
        Node::Internal { com_mass, .. } => assert_eq!(com_mass.count_ones(), 64),
        _ => panic!("expected a split root"),
    }
}

/// Opens every box above `depth` and every leaf when `leaves` is set.
fn opener(depth: usize, leaves: bool) -> Probe<impl Fn(&u64, usize) -> bool, impl Fn(&u64, usize) -> bool> {
    Probe {
        opens_box: move |_summary: &u64, level: usize| level < depth,
        opens_leaf: move |_summary: &u64, _level: usize| leaves,
    }
}

fn covered(pulls: &[Pull<u64>]) -> Vec<usize> {
    let mut out = Vec::new();
    for p in pulls {
        match p {
            Pull::Star(id) => out.push(*id),
            Pull::Summary(mask, _) => out.extend((0..64).filter(|i| mask & (1u64 << i) != 0)),
        }
    }
    out
}

fn sample_network() -> Node<u64> {
    let f = field(vec![]);
    let qs = [
        Quadrant::LowXLowY,
        Quadrant::HighXLowY,
        Quadrant::LowXHighY,
        Quadrant::HighXHighY,
    ];
    let stars: Vec<Body> = (0..16usize).map(|i| body(i, &[qs[i % 4], qs[i / 4]])).collect();
    create_network(&stars, &f)
}

#[test]
fn unopened_root_pulls_as_one_body() {
    let network = sample_network();
    let pulls = network.pulls(0, &opener(0, true));
    assert_eq!(pulls.len(), 1);
    match &pulls[0] {
        Pull::Summary(mask, _) => assert_eq!(*mask, 0xffff),
        Pull::Star(_) => panic!("expected the root's summary"),
    }
}

#[test]
fn opened_tree_pulls_star_by_star_in_tree_order() {
    let network = sample_network();
    let pulls = network.pulls(0, &opener(10, true));
    assert_eq!(pulls.len(), 16);
    assert!(pulls.iter().all(|p| matches!(p, Pull::Star(_))));
    let mut in_tree = Vec::new();
    ids(&network, &mut in_tree);
    assert_eq!(covered(&pulls), in_tree);
}

#[test]
fn every_star_pulls_once_at_any_opening_depth() {
    let network = sample_network();
    let mut in_tree = Vec::new();
    ids(&network, &mut in_tree);
    for depth in 0..4 {
        for leaves in [false, true] {
            let pulls = network.pulls(0, &opener(depth, leaves));
            let mut seen = covered(&pulls);
            assert_eq!(seen.len(), 16);
            seen.sort();
            assert_eq!(seen, (0..16).collect::<Vec<_>>());
        }
    }
    let closed_leaves = network.pulls(0, &opener(1, false));
    assert_eq!(closed_leaves.len(), 4);
}

#[test]
fn summaries_absorb_stars_in_the_order_they_were_pushed() {
    // A summary records the stars it absorbed as base-16 digits, oldest first.
    let f = StarField {
        single: |id: usize| id as u64 + 1,
        empty: 0u64,
        absorb: |m: &u64, id: usize| *m * 16 + id as u64 + 1,
        coincide: |_a: usize, _b: usize| true,
    };
    let stars = vec![body(0, &[]), body(1, &[]), body(2, &[])];
    let network = create_network(&stars, &f);
    match &network {
        Node::Leaf { star, idx: 0, com_mass } => {
            assert_eq!(star.len(), 3);
            assert_eq!(*com_mass, 0x123);
        }
        _ => panic!("coinciding stars share the root leaf"),
    }
    let g = StarField {
        single: |id: usize| id as u64 + 1,
        empty: 0u64,
        absorb: |m: &u64, id: usize| *m * 16 + id as u64 + 1,
        coincide: |_a: usize, _b: usize| false,
    };
    let apart = vec![body(0, &[Quadrant::LowXLowY]), body(1, &[Quadrant::HighXHighY]), body(2, &[Quadrant::LowXHighY])];
    match &create_network(&apart, &g) {
        Node::Internal { com_mass, .. } => assert_eq!(*com_mass, 0x123),
        _ => panic!("expected a split root"),
    }
}
