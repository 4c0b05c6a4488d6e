use aoc_rs::util::grid::Grid;
use aoc_rs::util::point::Point;
use aoc_rs::year2025::day09::compress_axis;
use aoc_rs::year2025::day09::fill_rooms;
use aoc_rs::year2025::day09::flood_fill;
use aoc_rs::year2025::day09::index_of;
use aoc_rs::year2025::day09::prefix_sums;
use aoc_rs::year2025::day09::CellState;
use aoc_rs::year2025::day09::Rect;

fn sample_rects() -> Vec<Rect> {
    vec![Rect { x1: 1, y1: 1, x2: 2, y2: 2 }, Rect { x1: 2, y1: 2, x2: 3, y2: 3 }]
}

#[test]
fn filler_is_idempotent() {
    let mut once = Grid::new(6, 6, CellState::Unknown);
    fill_rooms(&mut once, &sample_rects());
    let mut twice = once.clone();
    fill_rooms(&mut twice, &sample_rects());
    assert!(once == twice);
}

#[test]
fn filler_is_order_independent() {
    let mut fwd = Grid::new(6, 6, CellState::Unknown);
    fill_rooms(&mut fwd, &sample_rects());
    let mut rev_rects = sample_rects();
    rev_rects.reverse();
    let mut rev = Grid::new(6, 6, CellState::Unknown);
    fill_rooms(&mut rev, &rev_rects);
    assert!(fwd == rev);
}

#[test]
fn flood_fill_reaches_every_open_cell() {
    // one room in the middle of a 4x4 grid: everything else drains to the
    // margin seed, and the room stays interior
    let mut g = Grid::new(4, 4, CellState::Unknown);
    fill_rooms(&mut g, &vec![Rect { x1: 1, y1: 1, x2: 2, y2: 2 }]);
    flood_fill(&mut g);
    for y in 0..4 {
        for x in 0..4 {
            let inside = (1..=2).contains(&x) && (1..=2).contains(&y);
            let want = if inside { CellState::Interior } else { CellState::Exterior };
            assert!(g.get(Point { x, y }) == Some(want));
        }
    }
}

#[test]
fn flood_fill_cannot_enter_an_enclosed_pocket() {
    // a ring of interior cells around (2,2): the pocket is unreachable
    // from the seed and stays unknown
    let ring = vec![
        Rect { x1: 1, y1: 1, x2: 3, y2: 1 },
        Rect { x1: 1, y1: 3, x2: 3, y2: 3 },
        Rect { x1: 1, y1: 1, x2: 1, y2: 3 },
        Rect { x1: 3, y1: 1, x2: 3, y2: 3 },
    ];
    let mut g = Grid::new(5, 5, CellState::Unknown);
    fill_rooms(&mut g, &ring);
    flood_fill(&mut g);
    assert!(g.get(Point { x: 2, y: 2 }) == Some(CellState::Unknown));
    assert!(g.get(Point { x: 0, y: 0 }) == Some(CellState::Exterior));
}

#[test]
fn prefix_sums_match_a_recount() {
    let mut g = Grid::new(4, 3, CellState::Unknown);
    fill_rooms(&mut g, &vec![Rect { x1: 1, y1: 1, x2: 2, y2: 1 }]);
    flood_fill(&mut g);
    // rows 0 and 2 and column 0 are exterior; (1,1) and (2,1) are interior
    // and (3,1) is exterior, so the non-exterior counts accumulate:
    let ps = prefix_sums(&g);
    assert!(ps.get(Point { x: 3, y: 2 }) == Some(2));
    assert!(ps.get(Point { x: 1, y: 1 }) == Some(1));
    assert!(ps.get(Point { x: 2, y: 1 }) == Some(2));
    assert!(ps.get(Point { x: 0, y: 2 }) == Some(0));
    // a direct recount of the full grid gives the same total
    let mut direct = 0;
    for y in 0..3 {
        for x in 0..4 {
            if g.get(Point { x, y }) != Some(CellState::Exterior) {
                direct += 1;
            }
        }
    }
    assert_eq!(direct, 2);
}

#[test]
fn axis_compression_sorts_dedups_and_adds_sentinels() {
    let axis = compress_axis(&vec![7, 3, 7, 11]);
    assert_eq!(axis, vec![i32::MIN, 3, 7, 11, i32::MAX]);
    assert_eq!(index_of(&axis, 7), 2);
}

#[test]
fn grid_parse_and_access() {
    let g = Grid::parse("ab\ncd");
    assert_eq!(g.width, 2);
    assert_eq!(g.height, 2);
    assert!(g.get(Point { x: 1, y: 1 }) == Some(b'd'));
    assert!(g.get(Point { x: 2, y: 0 }).is_none());
    let found = g.find(b'c');
    assert!(found == Some(Point { x: 0, y: 1 }));
    assert!(g.find(b'z').is_none());
    let all = g.find_all(b'b');
    assert_eq!(all.len(), 1);
    let blank = g.copy_maze_with(b'.');
    assert!(blank.get(Point { x: 0, y: 0 }) == Some(b'.'));
}

#[test]
fn grid_set_and_get_mut() {
    let mut g = Grid::new(2, 2, 0u8);
    g.set(Point { x: 1, y: 0 }, 9);
    assert!(g.get(Point { x: 1, y: 0 }) == Some(9));
    assert!(g.get_mut(Point { x: 0, y: 1 }, 7));
    assert!(!g.get_mut(Point { x: 5, y: 5 }, 7));
    assert!(g.get(Point { x: 0, y: 1 }) == Some(7));
}

#[test]
fn point_helpers() {
    let p = Point::new(3, -2);
    assert_eq!(p.coords(), (3, -2));
    let q = p.add(Point { x: 1, y: 1 });
    assert_eq!(q, Point { x: 4, y: -1 });
}
