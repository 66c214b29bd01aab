use polycube::arrangement::Arrangement;
use polycube::bitset::Bitset;
use polycube::geometry::{Coord, Orientation};
use polycube::puzzle::{Piece, Puzzle, PuzzleError};
use polycube::solver::Solver;
use polycube::symmetry::image_in_cube;

fn shape(s: &str) -> Orientation {
    Orientation(Coord::parse_list(s.as_bytes()).expect("valid shape"))
}

fn piece(name: &str, s: &str) -> Piece {
    Piece::new(name.to_string(), name.to_string(), shape(s))
}

fn cube(d: usize) -> Coord {
    Coord::new(d, d, d)
}

fn popcount(b: Bitset) -> u32 {
    b.0.count_ones()
}

#[test]
fn bitset_operations() {
    let mut b = Bitset::empty();
    assert_eq!(b.0, 0);
    assert!(!b.get(5));
    b.set(5);
    b.set(63);
    assert!(b.get(5));
    assert!(b.get(63));
    assert!(!b.get(4));
    let c = Bitset(0b110000);
    assert_eq!(b.union(c).0, (1u64 << 63) | 0b110000);
    assert_eq!(b.intersection(c).0, 0b100000);
    assert_eq!(b.xor(c).0, (1u64 << 63) | 0b010000);
    assert!(b.intersects(c));
    assert!(!b.intersects(Bitset(0b1)));
}

#[test]
fn coordinate_rotations() {
    let mut c = Coord { x: 1, y: 2, z: 3 };
    c.rotate_x();
    assert_eq!(c, Coord { x: 1, y: -3, z: 2 });
    let mut c = Coord { x: 1, y: 2, z: 3 };
    c.rotate_y();
    assert_eq!(c, Coord { x: 3, y: 2, z: -1 });
    let mut c = Coord { x: 1, y: 2, z: 3 };
    c.rotate_z();
    assert_eq!(c, Coord { x: -2, y: 1, z: 3 });
    let mut c = Coord { x: 1, y: 2, z: 3 };
    c.turn(4, 4, 4);
    assert_eq!(c, Coord { x: 1, y: 2, z: 3 });
    assert_eq!(Coord::new(4, 5, 6), Coord { x: 4, y: 5, z: 6 });
}

#[test]
fn shape_descriptor_parsing() {
    let v = Coord::parse_list(b"000-120-013").expect("valid");
    assert_eq!(v, vec![Coord { x: 0, y: 0, z: 0 }, Coord { x: 1, y: 2, z: 0 }, Coord { x: 0, y: 1, z: 3 }]);
    assert_eq!(Coord::parse_list(b"7a1"), None);
    assert_eq!(Coord::parse_list(b"000-10"), None);
    assert_eq!(Coord::parse_list(b"000+100"), None);
    assert_eq!(Coord::parse_list(b""), None);
}

#[test]
fn offset_bounds_and_normalise() {
    let o = Orientation(vec![Coord { x: 2, y: -1, z: 5 }, Coord { x: 4, y: 3, z: 5 }]);
    assert_eq!(o.offset(), Coord { x: 2, y: -1, z: 5 });
    assert_eq!(o.bounds(), Coord { x: 4, y: 3, z: 5 });
    let n = o.normalise();
    assert_eq!(n.0, vec![Coord { x: 0, y: 0, z: 0 }, Coord { x: 2, y: 4, z: 0 }]);
}

#[test]
fn rotate_then_normalise() {
    let mut o = shape("000-100-200");
    o.rotate(0, 0, 1);
    assert_eq!(o.0, vec![Coord { x: 0, y: 0, z: 0 }, Coord { x: 0, y: 1, z: 0 }, Coord { x: 0, y: 2, z: 0 }]);
}

#[test]
fn mask_linearization() {
    let d = cube(2);
    assert_eq!(Bitset::from_orientation(&shape("000-100"), &d).0, 0b11);
    assert_eq!(Bitset::from_orientation(&shape("010"), &d).0, 0b100);
    assert_eq!(Bitset::from_orientation(&shape("001"), &d).0, 0b10000);
    assert_eq!(Bitset::from_orientation(&shape("111"), &d).0, 0b10000000);
}

#[test]
fn translations_in_order() {
    let p = Puzzle::unique_placements(&shape("000-100"), &cube(2));
    let words: Vec<u64> = p.iter().map(|b| b.0).collect();
    assert_eq!(words, vec![0x3, 0x30, 0xC, 0xC0]);
}

#[test]
fn translations_are_distinct() {
    let p = Puzzle::unique_placements(&shape("000-100-010"), &cube(4));
    assert_eq!(p.len(), 3 * 3 * 4);
    for i in 0..p.len() {
        for j in 0..i {
            assert_ne!(p[i], p[j]);
        }
    }
}

#[test]
fn full_masks() {
    assert_eq!(Puzzle::full(&cube(1)).0, 1);
    assert_eq!(Puzzle::full(&cube(2)).0, 0xFF);
    assert_eq!(Puzzle::full(&cube(3)).0, (1u64 << 27) - 1);
    assert_eq!(Puzzle::full(&cube(4)).0, u64::MAX);
}

#[test]
fn symmetric_pieces_lose_duplicate_orientations() {
    let single = piece("a", "000");
    assert_eq!(single.rotations().len(), 24);
    assert_eq!(single.orientations().len(), 1);
    let domino = piece("d", "000-100");
    let o = domino.orientations();
    assert_eq!(o.len(), 3);
    assert_eq!(o[0].0, vec![Coord { x: 0, y: 0, z: 0 }, Coord { x: 1, y: 0, z: 0 }]);
    let frame = cube(4);
    for i in 0..o.len() {
        for j in 0..i {
            assert_ne!(Bitset::from_orientation(&o[i], &frame), Bitset::from_orientation(&o[j], &frame));
        }
    }
    let l = piece("l", "000-100-200-010-001");
    assert_eq!(l.orientations().len(), 24);
    assert_eq!(Puzzle::piece_placements(&single, &cube(2)).len(), 8);
    let square = piece("b", "000-100-010-110");
    assert_eq!(Puzzle::piece_placements(&square, &cube(2)).len(), 6);
    let bar = piece("c", "000-100");
    assert_eq!(Puzzle::piece_placements(&bar, &cube(2)).len(), 12);
}

#[test]
fn placements_keep_cell_count() {
    let l = piece("l", "000-100-200-010");
    let p = Puzzle::piece_placements(&l, &cube(3));
    assert!(!p.is_empty());
    for b in &p {
        assert_eq!(popcount(*b), 4);
    }
    let t = piece("t", "000-100-200-110-101");
    for b in &Puzzle::piece_placements(&t, &cube(4)) {
        assert_eq!(popcount(*b), 5);
    }
}

#[test]
fn orientation_set_is_closed_under_rotation() {
    let d = cube(4);
    let l = piece("l", "000-100-200-010-001");
    let masks = |p: &Piece| -> Vec<u64> {
        let mut m: Vec<u64> = p.orientations().iter().map(|o| Bitset::from_orientation(o, &d).0).collect();
        m.sort();
        m.dedup();
        m
    };
    let base = masks(&l);
    for o in l.orientations() {
        let again = Piece::new("x".to_string(), "x".to_string(), o);
        assert_eq!(masks(&again), base);
    }
}

#[test]
fn arrangement_push_and_undo() {
    let mut a = Arrangement::new();
    a.push(0, Bitset(0b0011));
    a.push(1, Bitset(0b1100));
    assert_eq!(a.occupied.0, 0b1111);
    assert_eq!(a.placements, vec![(0, Bitset(0b0011)), (1, Bitset(0b1100))]);
    assert_eq!(a.pop(), Some((1, Bitset(0b1100))));
    assert_eq!(a.occupied.0, 0b0011);
    assert_eq!(a.pop(), Some((0, Bitset(0b0011))));
    assert_eq!(a.occupied.0, 0);
    assert_eq!(a.pop(), None);
    assert_eq!(a.occupied.0, 0);
}

fn two_squares() -> Puzzle {
    let pieces = vec![piece("a", "000-100-010-110"), piece("b", "000-100-001-101")];
    match Puzzle::new("cube".to_string(), pieces) {
        Ok(p) => p,
        Err(e) => panic!("unexpected error {:?}", e),
    }
}

#[test]
fn two_piece_cube_is_solved() {
    let puzzle = two_squares();
    assert_eq!(puzzle.dim, cube(2));
    assert_eq!(puzzle.full.0, 0xFF);
    let mut solver = Solver::build(false);
    solver.begin(&puzzle);
    assert!(!solver.solutions.is_empty());
    assert!(solver.explored > 0);
    for sol in &solver.solutions {
        assert_eq!(sol.len(), 2);
        assert_eq!(sol[0].1.0 & sol[1].1.0, 0);
        assert_eq!(sol[0].1.0 | sol[1].1.0, 0xFF);
        assert_ne!(sol[0].0, sol[1].0);
    }
}

#[test]
fn non_cubic_total_is_rejected() {
    let pieces = vec![piece("a", "000-100-010-110"), piece("b", "000")];
    assert!(matches!(Puzzle::new("x".to_string(), pieces), Err(PuzzleError::VolumeMismatch(5, 8))));
    let big = vec![piece("a", "000-100-200-300-010-110-210-310-020-120-220-320-030-130-230-330"); 5];
    assert!(matches!(Puzzle::new("x".to_string(), big), Err(PuzzleError::VolumeMismatch(80, 64))));
    let twenty = vec![piece("a", "000-100-010-110"); 5];
    assert!(matches!(Puzzle::new("x".to_string(), twenty), Err(PuzzleError::VolumeMismatch(20, 27))));
}

#[test]
fn empty_shape_is_rejected() {
    let pieces = vec![piece("a", "000"), Piece::new("b".to_string(), "b".to_string(), Orientation(vec![]))];
    assert!(matches!(Puzzle::new("x".to_string(), pieces), Err(PuzzleError::BadShape(1))));
    let long = vec![piece("a", "000-100-200-300-400"), piece("b", "000-100-200")];
    assert!(matches!(Puzzle::new("x".to_string(), long), Err(PuzzleError::BadShape(0))));
    assert!(!Puzzle::fits_frame(&piece("a", "000-100-200-300-400")));
    assert!(Puzzle::fits_frame(&piece("a", "000-100-200-300")));
}

#[test]
fn feasibility_tests() {
    let puzzle = two_squares();
    let solver = Solver::build(false);
    let first = puzzle.pieces[0].placements[0];
    assert!(solver.has_full_coverage(&puzzle, first, &vec![1]));
    assert!(solver.can_pieces_fit(&puzzle, first, &vec![1]));
    assert!(!solver.has_full_coverage(&puzzle, first, &vec![]));
    assert!(solver.has_full_coverage(&puzzle, Bitset(0xFF), &vec![]));
    assert!(!solver.can_pieces_fit(&puzzle, Bitset(0xFF), &vec![1]));
}

#[test]
fn repeated_runs_agree() {
    let pieces = vec![
        piece("a", "000-100-010"),
        piece("b", "000-100-010"),
        piece("c", "000-100"),
    ];
    let puzzle = match Puzzle::new("x".to_string(), pieces) {
        Ok(p) => p,
        Err(e) => panic!("unexpected error {:?}", e),
    };
    let mut first = Solver::build(false);
    first.begin(&puzzle);
    let mut second = Solver::build(false);
    second.begin(&puzzle);
    assert!(!first.solutions.is_empty());
    assert_eq!(first.solutions.len(), second.solutions.len());
    assert_eq!(first.explored, second.explored);
    assert_eq!(first.solutions, second.solutions);
}

#[test]
fn seeded_search_matches_on_repeat() {
    let puzzle = two_squares();
    let seeds = vec![puzzle.pieces[0].placements[0]];
    let mut first = Solver::build(false);
    first.begin_from(&puzzle, 0, &seeds);
    let mut second = Solver::build(false);
    second.begin_from(&puzzle, 0, &seeds);
    assert_eq!(first.solutions.len(), 1);
    assert_eq!(first.explored, second.explored);
    assert_eq!(first.solutions, second.solutions);
}

#[test]
fn cube_rotation_images() {
    assert_eq!(image_in_cube(Bitset(1), 0, 2), Some(Bitset(1)));
    assert_eq!(image_in_cube(Bitset(1), 6, 2), Some(Bitset(0b100)));
    assert_eq!(image_in_cube(Bitset(0x0F), 6, 2), Some(Bitset(0xCC)));
    let mut c = Coord { x: 1, y: 2, z: 3 };
    c.rotate_by(6);
    assert_eq!(c, Coord { x: 1, y: -3, z: 2 });
}

#[test]
fn symmetric_starts_are_reduced() {
    let puzzle = two_squares();
    assert_eq!(puzzle.canonical_seeds(0), vec![Bitset(0x0F)]);
    let mut solver = Solver::build(false);
    solver.begin(&puzzle);
    assert_eq!(solver.solutions.len(), 1);
    assert_eq!(solver.solutions[0], vec![(0, Bitset(0x0F)), (1, Bitset(0xF0))]);
}
