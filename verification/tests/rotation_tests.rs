use ttt_cfr::rotation::Rotation;

#[test]
fn test_inverses() {
    for i in 0..9u8 {
        assert!(i == Rotation::Straight.rotate_index(i));
        assert!(i == Rotation::Straight.rotate_index(Rotation::Straight.rotate_index(i)));
        assert!(i == Rotation::Right.rotate_index(Rotation::Left.rotate_index(i)));
        assert!(i == Rotation::Double.rotate_index(Rotation::Double.rotate_index(i)));
        assert!(i == Rotation::Left.rotate_index(Rotation::Right.rotate_index(i)));

        assert!(i == Rotation::Straight.derotate_index(Rotation::Straight.rotate_index(i)));
        assert!(i == Rotation::Left.derotate_index(Rotation::Left.rotate_index(i)));
        assert!(i == Rotation::Double.derotate_index(Rotation::Double.rotate_index(i)));
        assert!(i == Rotation::Right.derotate_index(Rotation::Right.rotate_index(i)));

        assert!(i == Rotation::Straight.derotate_index(Rotation::Straight.derotate_index(i)));
        assert!(i == Rotation::Left.derotate_index(Rotation::Right.derotate_index(i)));
        assert!(i == Rotation::Double.derotate_index(Rotation::Double.derotate_index(i)));
        assert!(i == Rotation::Right.derotate_index(Rotation::Left.derotate_index(i)));
    }
}

#[test]
fn test_rotate_matrix_moves_cells() {
    let m: [u8; 9] = [0, 1, 2, 3, 4, 5, 6, 7, 8];
    let r = Rotation::Right.rotate_matrix(m);
    assert_eq!(r, [2, 5, 8, 1, 4, 7, 0, 3, 6]);
    let back = Rotation::Right.derotate_matrix(r);
    assert_eq!(back, m);
    let d = Rotation::Double.rotate_matrix(m);
    assert_eq!(d, [8, 7, 6, 5, 4, 3, 2, 1, 0]);
}
