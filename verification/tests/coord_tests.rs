use spatial_grid::{Coord, SurroundingCoords};

fn collect_coords(mut sc: SurroundingCoords) -> Vec<Coord> {
    let mut items: Vec<Coord> = Vec::new();
    while let Some(c) = sc.next() {
        items.push(c);
    }
    items
}

#[test]
fn top_left_corner() {
    let coord = Coord::new(0, 0);
    let items: Vec<Coord> = collect_coords(coord.surrounding_coords(1, 20));

    assert_eq!(
        items,
        vec![
            Coord::new(0, 0),
            Coord::new(1, 0),
            Coord::new(0, 1),
            Coord::new(1, 1),
        ]
    );
}

#[test]
fn top_right_corner() {
    let coord = Coord::new(19, 0);
    let items: Vec<Coord> = collect_coords(coord.surrounding_coords(1, 19));

    assert_eq!(
        items,
        vec![
            Coord::new(18, 0),
            Coord::new(19, 0),
            Coord::new(18, 1),
            Coord::new(19, 1),
        ]
    );
}

#[test]
fn bottom_left_corner() {
    let coord = Coord::new(0, 19);
    let items: Vec<Coord> = collect_coords(coord.surrounding_coords(1, 19));

    assert_eq!(
        items,
        vec![
            Coord::new(0, 18),
            Coord::new(1, 18),
            Coord::new(0, 19),
            Coord::new(1, 19),
        ]
    );
}

#[test]
fn bottom_right_corner() {
    let coord = Coord::new(19, 19);
    let items: Vec<Coord> = collect_coords(coord.surrounding_coords(1, 19));

    assert_eq!(
        items,
        vec![
            Coord::new(18, 18),
            Coord::new(19, 18),
            Coord::new(18, 19),
            Coord::new(19, 19),
        ]
    );
}

#[test]
fn not_near_an_edge() {
    let coord = Coord::new(4, 4);
    let items: Vec<Coord> = collect_coords(coord.surrounding_coords(1, 19));

    assert_eq!(
        items,
        vec![
            Coord::new(3, 3),
            Coord::new(4, 3),
            Coord::new(5, 3),
            Coord::new(3, 4),
            Coord::new(4, 4),
            Coord::new(5, 4),
            Coord::new(3, 5),
            Coord::new(4, 5),
            Coord::new(5, 5),
        ]
    );
}
