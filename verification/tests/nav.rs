use aether::nav::{FlowField, NavGrid};

#[test]
fn doc_example_row_steps_east() {
    let grid = NavGrid::new(5, 1);
    let field = FlowField::toward(&grid, (4, 0));
    assert_eq!(field.dir(0, 0), Some((1, 0)));
    assert_eq!(field.dir(4, 0), Some((0, 0)));
}

#[test]
fn open_row_points_at_target() {
    let grid = NavGrid::new(6, 1);
    let f = FlowField::toward(&grid, (5, 0));
    for x in 0..5 {
        assert_eq!(f.dir(x, 0), Some((1, 0)), "x={x}");
    }
    assert_eq!(f.dir(5, 0), Some((0, 0)));
    assert_eq!(f.cost(5, 0), Some(0));
    assert_eq!(f.cost(0, 0), Some(50));
}

#[test]
fn cost_decreases_toward_target_in_open_field() {
    let grid = NavGrid::new(9, 9);
    let f = FlowField::toward(&grid, (4, 4));
    for z in 0..9 {
        for x in 0..9 {
            if (x, z) == (4, 4) {
                continue;
            }
            let (dx, dz) = f.dir(x, z).unwrap();
            let nx = (x as i32 + dx as i32) as usize;
            let nz = (z as i32 + dz as i32) as usize;
            assert!(
                f.cost(nx, nz).unwrap() < f.cost(x, z).unwrap(),
                "at ({x},{z}) dir ({dx},{dz}) did not descend"
            );
        }
    }
}

#[test]
fn diagonal_is_preferred_when_cheaper() {
    let grid = NavGrid::new(5, 5);
    let f = FlowField::toward(&grid, (4, 4));
    assert_eq!(f.dir(0, 0), Some((1, 1)));
}

#[test]
fn routes_around_a_wall() {
    let mut grid = NavGrid::new(5, 5);
    for z in 0..3 {
        grid.block(2, z);
    }
    let f = FlowField::toward(&grid, (4, 0));
    let (dx, _dz) = f.dir(1, 0).unwrap();
    assert!(
        !(dx == 1 && f.dir(1, 0).unwrap().1 == 0),
        "steered into the wall"
    );
    assert!(f.reachable(0, 0));
    assert!(f.cost(0, 0).unwrap() > f.cost(4, 0).unwrap());
}

#[test]
fn no_corner_cutting_through_blocked_diagonal() {
    let mut grid = NavGrid::new(3, 3);
    grid.block(1, 0);
    grid.block(0, 1);
    let f = FlowField::toward(&grid, (0, 0));
    if let Some(dir) = f.dir(1, 1) {
        assert_ne!(dir, (-1, -1), "cut a blocked corner");
    }
}

#[test]
fn enclosed_target_is_unreachable_from_outside() {
    let mut grid = NavGrid::new(5, 5);
    for (x, z) in [
        (1, 2),
        (3, 2),
        (2, 1),
        (2, 3),
        (1, 1),
        (1, 3),
        (3, 1),
        (3, 3),
    ] {
        grid.block(x, z);
    }
    let f = FlowField::toward(&grid, (2, 2));
    assert!(f.reachable(2, 2));
    assert!(!f.reachable(0, 0));
    assert_eq!(f.dir(0, 0), None);
    assert_eq!(f.cost(0, 0), None);
}

#[test]
fn blocked_target_yields_empty_field() {
    let mut grid = NavGrid::new(4, 4);
    grid.block(2, 2);
    let f = FlowField::toward(&grid, (2, 2));
    assert!(!f.reachable(2, 2));
    assert_eq!(f.dir(0, 0), None);
}

#[test]
fn out_of_bounds_queries_are_none() {
    let grid = NavGrid::new(3, 3);
    let f = FlowField::toward(&grid, (0, 0));
    assert_eq!(f.dir(5, 5), None);
    assert_eq!(f.cost(9, 0), None);
    assert!(!f.reachable(3, 0));
}

#[test]
fn diagonal_costs_fourteen_and_orthogonal_ten() {
    let grid = NavGrid::new(3, 3);
    let f = FlowField::toward(&grid, (0, 0));
    assert_eq!(f.cost(1, 0), Some(10));
    assert_eq!(f.cost(1, 1), Some(14));
    assert_eq!(f.cost(2, 2), Some(28));
    assert_eq!(f.cost(2, 1), Some(24));
    assert_eq!(f.target(), (0, 0));
}

#[test]
fn following_the_field_reaches_the_target() {
    let mut grid = NavGrid::new(7, 6);
    for z in 0..5 {
        grid.block(3, z);
    }
    let f = FlowField::toward(&grid, (6, 0));
    let (mut x, mut z) = (0usize, 0usize);
    let budget = f.cost(0, 0).unwrap();
    let mut steps = 0u32;
    while (x, z) != (6, 0) {
        let (dx, dz) = f.dir(x, z).unwrap();
        x = (x as i32 + dx as i32) as usize;
        z = (z as i32 + dz as i32) as usize;
        assert!(!grid.is_blocked(x as i32, z as i32));
        steps += 1;
        assert!(steps <= budget);
    }
    assert!(f.clone().reachable(6, 0));
}

#[test]
fn grid_reports_dims_and_blocking() {
    let mut grid = NavGrid::new(4, 2);
    assert_eq!(grid.dims(), (4, 2));
    assert!(!grid.is_blocked(3, 1));
    grid.set_blocked(3, 1, true);
    assert!(grid.is_blocked(3, 1));
    grid.set_blocked(3, 1, false);
    assert!(!grid.is_blocked(3, 1));
    assert!(grid.is_blocked(-1, 0));
    assert!(grid.is_blocked(4, 0));
}
