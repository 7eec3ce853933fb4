use robonav::position::Position;

#[test]
fn manhattan_distance_sums_both_axes() {
    let a = Position::new(1, -2);
    let b = Position::new(-3, 4);
    assert_eq!(a.manhattan_distance_to(&b), 10);
    assert_eq!(b.manhattan_distance_to(&a), 10);
    assert_eq!(a.manhattan_distance_to(&a), 0);
}

#[test]
fn neighbors_are_north_east_south_west() {
    let p = Position::new(3, 5);
    assert_eq!(
        p.neighbors(),
        vec![
            Position::new(3, 4),
            Position::new(4, 5),
            Position::new(3, 6),
            Position::new(2, 5),
        ]
    );
}
