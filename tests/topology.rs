use blub::blub::{
    detect, occupancy_rgb, palette, relimit, rgb_buffer, topology, BlubPx, TopologyError,
};
use blub::table::Table;

fn grid(width: usize, height: usize, occupied: &[(usize, usize)]) -> Table<bool> {
    let mut t = Table::new(width, height, &false);
    for &p in occupied {
        t.set(p, true);
    }
    t
}

fn cells_with(t: &Table<BlubPx>, v: BlubPx) -> usize {
    let mut n = 0;
    for y in 0..t.height() {
        for x in 0..t.width() {
            if *t.get((x, y)) == v {
                n += 1;
            }
        }
    }
    n
}

fn distinct_marks(t: &Table<BlubPx>) -> Vec<BlubPx> {
    let mut marks: Vec<BlubPx> = Vec::new();
    for y in 0..t.height() {
        for x in 0..t.width() {
            let v = *t.get((x, y));
            if !marks.contains(&v) {
                marks.push(v);
            }
        }
    }
    marks
}

fn ring_5x5() -> Table<bool> {
    let mut ring = Vec::new();
    for i in 0..5 {
        ring.push((i, 0));
        ring.push((i, 4));
        ring.push((0, i));
        ring.push((4, i));
    }
    grid(5, 5, &ring)
}

fn nested() -> Table<bool> {
    // an occupied frame around a free ring around an occupied dot, inside a free margin
    let mut occ = Vec::new();
    for i in 1..8 {
        occ.push((i, 1));
        occ.push((i, 7));
        occ.push((1, i));
        occ.push((7, i));
    }
    occ.push((4, 4));
    grid(9, 9, &occ)
}

#[test]
fn scenario_center_dot() {
    let g = grid(3, 3, &[(1, 1)]);
    let t = topology(&g, (0, 0)).unwrap();
    assert_eq!(cells_with(&t, BlubPx::Region(0, 0)), 8);
    assert_eq!(*t.get((1, 1)), BlubPx::Border(1));
    assert_eq!(cells_with(&t, BlubPx::Border(1)), 1);
    assert_eq!(distinct_marks(&t).len(), 2);
}

#[test]
fn scenario_ring() {
    let g = ring_5x5();
    let t = topology(&g, (0, 0)).unwrap();
    assert_eq!(*t.get((0, 0)), BlubPx::Border(0));
    assert_eq!(cells_with(&t, BlubPx::Border(0)), 16);
    assert_eq!(cells_with(&t, BlubPx::Region(0, 0)), 9);
    assert_eq!(distinct_marks(&t).len(), 2);
}

#[test]
fn scenario_single_cell() {
    let free = grid(1, 1, &[]);
    let t = topology(&free, (0, 0)).unwrap();
    assert_eq!(*t.get((0, 0)), BlubPx::Region(0, 0));
    let occupied = grid(1, 1, &[(0, 0)]);
    let t = topology(&occupied, (0, 0)).unwrap();
    assert_eq!(*t.get((0, 0)), BlubPx::Border(0));
}

#[test]
fn scenario_seed_out_of_bounds() {
    let g = grid(3, 3, &[(1, 1)]);
    assert_eq!(topology(&g, (5, 5)).err(), Some(TopologyError::OutOfBounds));
    assert_eq!(topology(&g, (3, 0)).err(), Some(TopologyError::OutOfBounds));
    assert_eq!(topology(&g, (0, 3)).err(), Some(TopologyError::OutOfBounds));
}

#[test]
fn empty_grid_rejects_every_seed() {
    let g = grid(0, 0, &[]);
    assert_eq!(topology(&g, (0, 0)).err(), Some(TopologyError::OutOfBounds));
}

#[test]
fn every_cell_claimed_once_with_fitting_label() {
    let g = nested();
    let t = topology(&g, (0, 0)).unwrap();
    let mut total = 0;
    for m in distinct_marks(&t) {
        assert_ne!(m, BlubPx::Unmarked);
        total += cells_with(&t, m);
    }
    assert_eq!(total, 81);
    for y in 0..9 {
        for x in 0..9 {
            match *t.get((x, y)) {
                BlubPx::Border(_) => assert!(*g.get((x, y))),
                BlubPx::Region(_, _) => assert!(!*g.get((x, y))),
                BlubPx::Unmarked => panic!("unclaimed cell"),
            }
        }
    }
}

#[test]
fn nesting_of_frame_ring_and_dot() {
    let g = nested();
    let t = topology(&g, (0, 0)).unwrap();
    assert_eq!(*t.get((0, 0)), BlubPx::Region(0, 0));
    assert_eq!(*t.get((1, 1)), BlubPx::Border(1));
    assert_eq!(*t.get((2, 2)), BlubPx::Region(1, 0));
    assert_eq!(*t.get((4, 4)), BlubPx::Border(2));
    assert_eq!(cells_with(&t, BlubPx::Region(0, 0)), 32);
    assert_eq!(cells_with(&t, BlubPx::Border(1)), 24);
    assert_eq!(cells_with(&t, BlubPx::Region(1, 0)), 24);
    assert_eq!(cells_with(&t, BlubPx::Border(2)), 1);
}

#[test]
fn like_neighbours_share_marks() {
    let g = nested();
    let t = topology(&g, (0, 0)).unwrap();
    for y in 0..9usize {
        for x in 0..9usize {
            let here = (x, y);
            for n in [(x + 1, y), (x, y + 1)] {
                if n.0 < 9 && n.1 < 9 && *g.get(n) == *g.get(here) {
                    assert_eq!(*t.get(n), *t.get(here));
                }
            }
        }
    }
}

#[test]
fn child_touches_parent() {
    let g = nested();
    let t = topology(&g, (0, 0)).unwrap();
    // the free ring Region(1, 0) lies beside its border Border(1)
    assert_eq!(*t.get((2, 2)), BlubPx::Region(1, 0));
    assert_eq!(*t.get((1, 2)), BlubPx::Border(1));
    // the dot Border(2) lies beside the ring that found it
    assert_eq!(*t.get((3, 4)), BlubPx::Region(1, 0));
}

#[test]
fn same_input_same_result() {
    let g = nested();
    let a = topology(&g, (4, 4)).unwrap();
    let b = topology(&g, (4, 4)).unwrap();
    for y in 0..9 {
        for x in 0..9 {
            assert_eq!(*a.get((x, y)), *b.get((x, y)));
        }
    }
}

#[test]
fn siblings_numbered_in_order_found() {
    // two occupied dots in a free field: found in the order of the flood fill
    let g = grid(5, 1, &[(1, 0), (3, 0)]);
    let t = topology(&g, (0, 0)).unwrap();
    assert_eq!(*t.get((0, 0)), BlubPx::Region(0, 0));
    assert_eq!(*t.get((1, 0)), BlubPx::Border(1));
    assert_eq!(*t.get((2, 0)), BlubPx::Region(1, 0));
    assert_eq!(*t.get((3, 0)), BlubPx::Border(2));
    assert_eq!(*t.get((4, 0)), BlubPx::Region(2, 0));
}

#[test]
fn border_with_two_holes() {
    let g = grid(5, 3, &[(0, 0), (1, 0), (2, 0), (3, 0), (4, 0), (0, 1), (2, 1), (4, 1), (0, 2), (1, 2), (2, 2), (3, 2), (4, 2)]);
    let t = topology(&g, (0, 0)).unwrap();
    assert_eq!(*t.get((0, 0)), BlubPx::Border(0));
    assert_eq!(*t.get((1, 1)), BlubPx::Region(0, 0));
    assert_eq!(*t.get((3, 1)), BlubPx::Region(0, 1));
}

#[test]
fn detect_starts_at_top_left() {
    let g = ring_5x5();
    let a = detect(&g);
    let b = topology(&g, (0, 0)).unwrap();
    for y in 0..5 {
        for x in 0..5 {
            assert_eq!(*a.get((x, y)), *b.get((x, y)));
        }
    }
}

#[test]
fn relimit_widens_only_when_needed() {
    assert_eq!(relimit((2, 5), 3), (2, 5));
    assert_eq!(relimit((2, 5), 2), (2, 5));
    assert_eq!(relimit((2, 5), 9), (2, 9));
    assert_eq!(relimit((2, 5), -1), (-1, 5));
}

#[test]
fn table_basics() {
    let mut t = Table::new(4, 2, &7u8);
    assert_eq!(t.width(), 4);
    assert_eq!(t.height(), 2);
    assert_eq!(*t.get((3, 1)), 7);
    t.set((3, 1), 9);
    assert_eq!(*t.get((3, 1)), 9);
    assert_eq!(*t.get((2, 1)), 7);
    let s = t.same_size(&true);
    assert_eq!(s.width(), 4);
    assert_eq!(s.height(), 2);
    assert!(*s.get((3, 1)));
    let c = t.clone();
    assert_eq!(*c.get((3, 1)), 9);
}

#[test]
fn find_goes_down_columns_first() {
    let mut t = Table::new(3, 3, &0u8);
    t.set((2, 0), 1);
    t.set((1, 2), 1);
    assert_eq!(t.find(|v: &u8| *v == 1), Some((1, 2)));
    assert_eq!(t.find(|v: &u8| *v == 5), None);
}

#[test]
fn colours() {
    assert_eq!(palette(0), [255, 255, 255]);
    assert_eq!(palette(9), [255, 0, 0]);
    assert_eq!(occupancy_rgb(true), [0, 0, 0]);
    assert_eq!(BlubPx::Unmarked.rgb(), [255, 255, 255]);
    assert_eq!(BlubPx::Border(5).rgb(), [0, 0, 255]);
    // red lightened to (255, 127, 127), scaled to (189, 93, 93), plus a quarter of blue
    assert_eq!(BlubPx::Region(1, 5).rgb(), [189, 93, 156]);
}

#[test]
fn rgb_buffer_lays_out_rows() {
    let g = grid(2, 2, &[(1, 0)]);
    let t = topology(&g, (0, 0)).unwrap();
    let buf = rgb_buffer(&t);
    assert_eq!(buf.len(), 12);
    // (0, 0) is region (0, 0): white lightened and scaled, plus a quarter of white
    assert_eq!(&buf[0..3], &[252, 252, 252]);
    // (1, 0) is border 1: red
    assert_eq!(&buf[3..6], &[255, 0, 0]);
    assert_eq!(&buf[6..9], &[252, 252, 252]);
}
