use nbody::quadrant::Quadrant;

#[test]
fn route_follows_the_two_comparisons() {
    assert_eq!(Quadrant::route(true, true), Quadrant::LowXLowY);
    assert_eq!(Quadrant::route(false, true), Quadrant::HighXLowY);
    assert_eq!(Quadrant::route(true, false), Quadrant::LowXHighY);
    assert_eq!(Quadrant::route(false, false), Quadrant::HighXHighY);
}

#[test]
fn indices_name_the_children_in_order() {
    let all = [
        Quadrant::LowXLowY,
        Quadrant::HighXLowY,
        Quadrant::LowXHighY,
        Quadrant::HighXHighY,
    ];
    for (i, q) in all.iter().enumerate() {
        assert_eq!(q.index(), i as u32);
        assert_eq!(Quadrant::from_index(i as u32), Some(*q));
    }
    assert_eq!(Quadrant::from_index(4), None);
    assert_eq!(Quadrant::from_index(u32::MAX), None);
}

#[test]
fn child_centres_move_towards_the_routed_side() {
    assert_eq!(Quadrant::LowXLowY.offset_signs(), (-1, -1));
    assert_eq!(Quadrant::HighXLowY.offset_signs(), (1, -1));
    assert_eq!(Quadrant::LowXHighY.offset_signs(), (-1, 1));
    assert_eq!(Quadrant::HighXHighY.offset_signs(), (1, 1));
    for x in [true, false] {
        for y in [true, false] {
            let (sx, sy) = Quadrant::route(x, y).offset_signs();
            assert_eq!(sx, if x { -1 } else { 1 });
            assert_eq!(sy, if y { -1 } else { 1 });
        }
    }
}
