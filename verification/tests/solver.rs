use cubesim::facelet_cube::{FaceletCube, MoveTable};
use cubesim::generic_cube::{Cube, Move, MoveVariant};
use cubesim::generic_solver::{encode_state, PruningTable};
use cubesim::masking::CubeMask;
use cubesim::scramble_parser::{parse_scramble, simplify_moves};
use cubesim::thistlethwaite::solve;

use MoveVariant::{Double, Inverse, Standard};

fn all_face_turns() -> Vec<Move> {
    let mut moves = Vec::new();
    for v in [Standard, Double, Inverse] {
        moves.push(Move::U(v));
        moves.push(Move::D(v));
        moves.push(Move::L(v));
        moves.push(Move::R(v));
        moves.push(Move::F(v));
        moves.push(Move::B(v));
    }
    moves
}

#[test]
fn move_table_matches_direct_application() {
    let moves = all_face_turns();
    let table = MoveTable::for_moves(3, &moves);
    let cube = FaceletCube::new(3);
    for (i, mv) in moves.iter().enumerate() {
        assert_eq!(cube.apply_via(&table, i).state(), cube.apply_move(*mv).state());
    }
}

#[test]
fn edge_orientation_space_is_covered() {
    // the edge orientation coordinate has exactly 2048 reachable values,
    // all within seven moves of the solved one
    let moves = all_face_turns();
    let table = MoveTable::for_moves(3, &moves);
    let seeds = vec![FaceletCube::new(3).mask(&CubeMask::EdgeOrient)];
    let pruning = PruningTable::new(&seeds, 7, &table, &CubeMask::EdgeOrient);
    assert_eq!(pruning.len(), 2048);
}

#[test]
fn pruning_table_distances_are_exact_near_the_goal() {
    let moves = all_face_turns();
    let table = MoveTable::for_moves(3, &moves);
    let seeds = vec![FaceletCube::new(3).mask(&CubeMask::EdgeOrient)];
    let pruning = PruningTable::new(&seeds, 7, &table, &CubeMask::EdgeOrient);

    let solved_key = encode_state(&seeds[0].state(), &CubeMask::EdgeOrient);
    assert_eq!(pruning.min_moves(solved_key), 0);

    // a quarter front turn flips four edges: distance one from solved
    let one_away = seeds[0].apply_move(Move::F(Standard));
    let key = encode_state(&one_away.state(), &CubeMask::EdgeOrient);
    assert_eq!(pruning.min_moves(key), 1);

    // a half turn keeps every edge oriented
    let still_good = seeds[0].apply_move(Move::F(Double));
    let key = encode_state(&still_good.state(), &CubeMask::EdgeOrient);
    assert_eq!(pruning.min_moves(key), 0);
}

#[test]
fn pruning_table_construction_is_deterministic() {
    let moves = all_face_turns();
    let table = MoveTable::for_moves(3, &moves);
    let seeds = vec![FaceletCube::new(3).mask(&CubeMask::CornerEquator)];
    let a = PruningTable::new(&seeds, 4, &table, &CubeMask::CornerEquator);
    let b = PruningTable::new(&seeds, 4, &table, &CubeMask::CornerEquator);
    assert_eq!(a.len(), b.len());
    let scramble = parse_scramble(String::from("R U F' L2 D B U2 R' F D2")).unwrap();
    let mut cube = FaceletCube::new(3).mask(&CubeMask::CornerEquator);
    for mv in scramble {
        cube = cube.apply_move(mv);
        let key = encode_state(&cube.state(), &CubeMask::CornerEquator);
        assert_eq!(a.min_moves(key), b.min_moves(key));
    }
}

#[test]
fn solved_cube_needs_no_moves() {
    let solution = solve(&FaceletCube::new(3));
    assert_eq!(solution, Some(vec![]));
}

#[test]
fn unsupported_sizes_report_no_solution() {
    assert_eq!(solve(&FaceletCube::new(2)), None);
}

#[test]
fn solutions_are_simplified() {
    let scramble = parse_scramble(String::from("R U R' U'")).unwrap();
    let cube = FaceletCube::new(3).apply_moves(&scramble);
    let solution = solve(&cube).expect("a short scramble is solvable");
    assert!(cube.apply_moves(&solution).is_solved());
    for w in solution.windows(2) {
        assert_ne!(
            std::mem::discriminant(&w[0]),
            std::mem::discriminant(&w[1]),
            "adjacent solution moves share a family"
        );
    }
    assert_eq!(simplify_moves(&solution), solution);
}
