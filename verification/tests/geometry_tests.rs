use dorfromantik_calculator::hex::AxialPos;
use dorfromantik_calculator::tile::{Quest, QuestType, SegmentType, Tile};

#[test]
fn neighbor_directions_follow_axial_offsets() {
    let o = AxialPos::zero();
    let n0 = o.neighbor(0);
    assert_eq!((n0.q, n0.r), (1, -1));
    let n1 = o.neighbor(1);
    assert_eq!((n1.q, n1.r), (1, 0));
    let n2 = o.neighbor(2);
    assert_eq!((n2.q, n2.r), (0, 1));
    let n3 = o.neighbor(3);
    assert_eq!((n3.q, n3.r), (-1, 1));
    let n4 = o.neighbor(4);
    assert_eq!((n4.q, n4.r), (-1, 0));
    let n5 = o.neighbor(5);
    assert_eq!((n5.q, n5.r), (0, -1));
    let n7 = o.neighbor(7);
    assert_eq!((n7.q, n7.r), (1, 0));
}

#[test]
fn opposite_direction_is_three_steps_round() {
    assert_eq!(AxialPos::opposite_dir(0), 3);
    assert_eq!(AxialPos::opposite_dir(1), 4);
    assert_eq!(AxialPos::opposite_dir(4), 1);
    assert_eq!(AxialPos::opposite_dir(7), 4);
    for d in 0..6usize {
        assert_eq!(AxialPos::opposite_dir(AxialPos::opposite_dir(d)), d);
    }
}

#[test]
fn going_out_and_back_returns_home() {
    let p = AxialPos::new(3, -7);
    for d in 0..6usize {
        let back = p.neighbor(d).neighbor(AxialPos::opposite_dir(d));
        assert_eq!(back, p);
    }
}

#[test]
fn hex_distance_examples() {
    let o = AxialPos::zero();
    assert_eq!(o.distance(o), 0);
    assert_eq!(o.distance(AxialPos::new(2, -1)), 2);
    assert_eq!(AxialPos::new(2, -1).distance(o), 2);
    assert_eq!(o.distance(AxialPos::new(3, 3)), 6);
    assert_eq!(AxialPos::new(-4, 1).distance(AxialPos::new(2, -3)), 6);
    for d in 0..6usize {
        assert_eq!(o.distance(o.neighbor(d)), 1);
    }
}

#[test]
fn add_and_sub_are_componentwise() {
    let a = AxialPos::new(5, -2);
    let b = AxialPos::new(-1, 4);
    assert_eq!(a.add(b), AxialPos::new(4, 2));
    assert_eq!(a.sub(b), AxialPos::new(6, -6));
    assert_eq!(AxialPos::direction(9), AxialPos::new(-1, 1));
}

fn sample_edges() -> [SegmentType; 6] {
    [SegmentType::Forest, SegmentType::Grass, SegmentType::Water, SegmentType::Village, SegmentType::Train, SegmentType::Agriculture]
}

#[test]
fn rotation_moves_each_edge_one_step_clockwise() {
    let mut t = Tile::new(sample_edges(), None);
    t.rotate_cw();
    assert_eq!(t.rotation, 1);
    assert_eq!(t.edges, [SegmentType::Agriculture, SegmentType::Forest, SegmentType::Grass, SegmentType::Water, SegmentType::Village, SegmentType::Train]);
    assert_eq!(t.get_edge(1), SegmentType::Forest);
}

#[test]
fn six_rotations_restore_the_tile() {
    let q = Quest { target_type: SegmentType::Water, quest_type: QuestType::Exactly, target_count: 4, is_fulfilled: false, is_flag: false };
    let mut t = Tile::new(sample_edges(), Some(q));
    for _ in 0..6 {
        t.rotate_cw();
    }
    assert_eq!(t.edges, sample_edges());
    assert_eq!(t.rotation, 0);
    assert_eq!(t.quest, Some(q));
}

#[test]
fn get_edge_wraps_direction() {
    let t = Tile::new(sample_edges(), None);
    assert_eq!(t.get_edge(0), SegmentType::Forest);
    assert_eq!(t.get_edge(5), SegmentType::Agriculture);
    assert_eq!(t.get_edge(8), SegmentType::Water);
}

#[test]
fn segment_names() {
    assert_eq!(SegmentType::Grass.name(), "Grass");
    assert_eq!(SegmentType::Train.name(), "Train");
    assert_eq!(SegmentType::Agriculture.name(), "Agriculture");
}
