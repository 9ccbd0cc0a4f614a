use jps::geometry::{decompose, Chirality, Direction, Pos};

#[test]
fn rotation_is_closed_and_cyclic() {
    let dirs = [
        Direction::North,
        Direction::Northeast,
        Direction::East,
        Direction::Southeast,
        Direction::South,
        Direction::Southwest,
        Direction::West,
        Direction::Northwest,
    ];
    for (i, d) in dirs.iter().enumerate() {
        assert_eq!(d.rotate(0), *d);
        assert_eq!(d.rotate(8), *d);
        assert_eq!(d.rotate(-8), *d);
        assert_eq!(d.rotate(1), dirs[(i + 1) % 8]);
        assert_eq!(d.rotate(-1), dirs[(i + 7) % 8]);
        assert_eq!(d.rotate(4), dirs[(i + 4) % 8]);
        assert_eq!(d.rotate(9), dirs[(i + 1) % 8]);
        assert_eq!(d.rotate(-9), dirs[(i + 7) % 8]);
    }
}

#[test]
fn chirality_flips_rotation_sign() {
    let east = Direction::East;
    assert_eq!(Chirality::Clockwise.rotate(east, 1), Direction::Southeast);
    assert_eq!(Chirality::Counterclockwise.rotate(east, 1), Direction::Northeast);
    assert_eq!(Chirality::Clockwise.rotate(east, -1), Direction::Northeast);
    assert_eq!(Chirality::Counterclockwise.rotate(east, -1), Direction::Southeast);
}

#[test]
fn distance_is_chebyshev() {
    let a = Pos { x: 0, y: 0 };
    assert_eq!(a.distance(Pos { x: 3, y: 4 }), 4);
    assert_eq!(a.distance(Pos { x: -3, y: 2 }), 3);
    assert_eq!(a.distance(Pos { x: 0, y: 0 }), 0);
    assert_eq!(a.distance(Pos { x: -5, y: -5 }), 5);
    assert_eq!(Pos { x: 7, y: -2 }.distance(Pos { x: 4, y: 1 }), 3);
}

#[test]
fn step_moves_along_unit_vectors() {
    let p = Pos { x: 2, y: 3 };
    assert_eq!(p.step(Direction::North, 2), Pos { x: 2, y: 5 });
    assert_eq!(p.step(Direction::Southeast, 1), Pos { x: 3, y: 2 });
    assert_eq!(p.step(Direction::West, 4), Pos { x: -2, y: 3 });
}

#[test]
fn decompose_splits_an_l_offset() {
    // stem east, leaf southeast (the clockwise side of east)
    let (s, l) = decompose(5, -2, Direction::East, Direction::Southeast);
    assert_eq!((s, l), (3, 2));
    // a pure stem run
    let (s, l) = decompose(0, 4, Direction::North, Direction::Northeast);
    assert_eq!((s, l), (4, 0));
    // counterclockwise side
    let (s, l) = decompose(3, 3, Direction::East, Direction::Northeast);
    assert_eq!((s, l), (0, 3));
}
