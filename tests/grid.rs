use agent_world::map::{Grid, GridError};
use agent_world::Position;

#[test]
fn get_and_index_agree_inside() {
    let g: Grid<u32> = Grid::from_generator(3, 2, |x, y| (10 * y + x) as u32);
    for y in 0..2 {
        for x in 0..3 {
            assert!(g.is_valid(x, y));
            assert_eq!(g.get(x, y), Some(g.index(x, y)));
            assert_eq!(*g.index(x, y), (10 * y + x) as u32);
            assert_eq!(*g.index_pos(Position { x, y }), (10 * y + x) as u32);
        }
    }
}

#[test]
fn get_outside_is_none() {
    let g: Grid<u32> = Grid::new(3, 2);
    assert_eq!(g.get(3, 0), None);
    assert_eq!(g.get(0, 2), None);
    assert_eq!(g.get(usize::MAX, usize::MAX), None);
    assert!(!g.is_valid(3, 0));
    assert!(!g.is_valid(0, 2));
}

#[test]
fn set_inside_and_outside() {
    let mut g: Grid<u8> = Grid::filled(2, 2, 0);
    assert_eq!(g.set(1, 1, 7), Ok(()));
    assert_eq!(*g.index(1, 1), 7);
    assert_eq!(g.as_slice(), &[0, 0, 0, 7]);
    assert_eq!(
        g.set(2, 0, 9),
        Err(GridError::OutOfBounds { x: 2, y: 0, width: 2, height: 2 })
    );
    assert_eq!(g.as_slice(), &[0, 0, 0, 7]);
}

#[test]
fn get_mut_writes_through() {
    let mut g: Grid<u8> = Grid::filled(2, 3, 1);
    if let Some(c) = g.get_mut(1, 2) {
        *c = 5;
    }
    assert!(g.get_mut(2, 2).is_none());
    assert_eq!(g.as_slice(), &[1, 1, 1, 1, 1, 5]);
    g.as_mut_slice()[0] = 4;
    assert_eq!(*g.index(0, 0), 4);
}

#[test]
fn index_conversions() {
    let g: Grid<u8> = Grid::new(4, 3);
    assert_eq!(g.width(), 4);
    assert_eq!(g.height(), 3);
    assert_eq!(g.coords_to_index(1, 2), Some(9));
    assert_eq!(g.coords_to_index(4, 0), None);
    assert_eq!(g.index_to_coords(9), Some((1, 2)));
    assert_eq!(g.index_to_coords(12), None);
}

#[test]
fn enumerate_is_row_major() {
    let g: Grid<u32> = Grid::from_generator(2, 2, |x, y| (x + 2 * y) as u32);
    let cells: Vec<((usize, usize), u32)> = g.enumerate().into_iter().map(|(p, v)| (p, *v)).collect();
    assert_eq!(cells, vec![((0, 0), 0), ((1, 0), 1), ((0, 1), 2), ((1, 1), 3)]);
}

#[test]
fn empty_grid() {
    let g: Grid<u8> = Grid::new(0, 5);
    assert_eq!(g.as_slice().len(), 0);
    assert_eq!(g.get(0, 0), None);
    assert_eq!(g.index_to_coords(0), None);
}

#[test]
fn iterators_cover_row_major() {
    let mut g: Grid<u32> = Grid::from_generator(2, 2, |x, y| (x + 2 * y) as u32);
    let vals: Vec<u32> = g.iter().into_iter().copied().collect();
    assert_eq!(vals, vec![0, 1, 2, 3]);
    for c in g.iter_mut().iter_mut() {
        *c += 10;
    }
    assert_eq!(g.as_slice(), &[10, 11, 12, 13]);
    let (coords, cells) = g.enumerate_mut();
    assert_eq!(coords, vec![(0, 0), (1, 0), (0, 1), (1, 1)]);
    cells[3] = 7;
    assert_eq!(*g.index(1, 1), 7);
}
