use cubesim::facelet_cube::{repeat, FaceletCube};
use cubesim::generic_cube::{all_moves, solved_state, sticker_index, Cube, Face, Move, MoveVariant};
use cubesim::geometric_cube::GeoCube;
use cubesim::masking::CubeMask;
use cubesim::scramble_parser::parse_scramble;

use Face::{B, D, F, L, R, U, X};
use MoveVariant::{Double, Inverse, Standard};

fn faces(text: &str) -> Vec<Face> {
    text.split_whitespace()
        .map(|t| match t {
            "U" => U,
            "L" => L,
            "F" => F,
            "R" => R,
            "B" => B,
            "D" => D,
            _ => X,
        })
        .collect()
}

#[test]
fn new_cubes_are_solved() {
    for n in 1..=5 {
        assert!(FaceletCube::new(n).is_solved(), "facelet cube of size {n}");
        assert!(GeoCube::new(n).is_solved(), "geometric cube of size {n}");
    }
}

#[test]
fn repeated_faces() {
    assert_eq!(repeat(Face::U, 4), vec![U, U, U, U]);
    assert_eq!(repeat(Face::X, 0), vec![]);
}

#[test]
fn solved_state_layout() {
    let cube = FaceletCube::new(3);
    assert_eq!(
        cube.state(),
        faces(
            "U U U U U U U U U \
             R R R R R R R R R \
             F F F F F F F F F \
             D D D D D D D D D \
             L L L L L L L L L \
             B B B B B B B B B"
        )
    );
    assert_eq!(solved_state(3), cube.state());
}

#[test]
fn upper_turn_state() {
    let expected = faces(
        "U U U U U U U U U \
         B B B R R R R R R \
         R R R F F F F F F \
         D D D D D D D D D \
         F F F L L L L L L \
         L L L B B B B B B",
    );
    let turned = FaceletCube::new(3).apply_move(Move::U(Standard));
    assert_eq!(turned.state(), expected);
    let turned = GeoCube::new(3).apply_move(Move::U(Standard));
    assert_eq!(turned.state(), expected);
}

#[test]
fn three_move_state() {
    let mvs = vec![Move::U(Standard), Move::R(Double), Move::B(Inverse)];
    let expected = faces(
        "L L F U U D U U D \
         R R U R R U B B D \
         R R B F F B F F L \
         D D U D D U B R R \
         D F F D L L U L L \
         L B B L B B F F R",
    );
    assert_eq!(FaceletCube::new(3).apply_moves(&mvs).state(), expected);
    assert_eq!(GeoCube::new(3).apply_moves(&mvs).state(), expected);
}

#[test]
fn turned_cube_is_not_solved() {
    assert!(!FaceletCube::new(3).apply_move(Move::R(Standard)).is_solved());
    assert!(!GeoCube::new(2).apply_move(Move::F(Double)).is_solved());
}

#[test]
fn round_trip_returns_to_start() {
    let scramble =
        parse_scramble(String::from("U R2 F B R B2 R U2 L B2 R U' D' R2 F R' L B2 U2 F2"))
            .unwrap();
    let inverse: Vec<Move> = scramble.iter().rev().map(|m| m.inverse()).collect();
    for n in [2, 3, 4] {
        let cube = FaceletCube::new(n).apply_moves(&scramble).apply_moves(&inverse);
        assert_eq!(cube.state(), FaceletCube::new(n).state());
        let cube = GeoCube::new(n).apply_moves(&scramble).apply_moves(&inverse);
        assert_eq!(cube.state(), GeoCube::new(n).state());
    }
}

#[test]
fn round_trip_with_wide_moves_and_rotations() {
    let scramble = parse_scramble(String::from("Uw x 3Rw2 z' Dw2 y2 Lw'")).unwrap();
    let inverse: Vec<Move> = scramble.iter().rev().map(|m| m.inverse()).collect();
    for n in [3, 5] {
        let cube = GeoCube::new(n).apply_moves(&scramble).apply_moves(&inverse);
        assert_eq!(cube.state(), GeoCube::new(n).state());
        let cube = FaceletCube::new(n).apply_moves(&scramble).apply_moves(&inverse);
        assert_eq!(cube.state(), FaceletCube::new(n).state());
    }
}

#[test]
fn representations_agree_on_scrambles() {
    let scramble = parse_scramble(String::from("U R2 F' Dw B2 Uw' L D' x F2 R'")).unwrap();
    for n in [2, 3, 4] {
        let a = FaceletCube::new(n).apply_moves(&scramble).state();
        let b = GeoCube::new(n).apply_moves(&scramble).state();
        assert_eq!(a, b, "representations disagree at size {n}");
    }
}

#[test]
fn edge_orient_mask_of_solved_cube() {
    let masked = FaceletCube::new(3).mask(&CubeMask::EdgeOrient);
    let expected = faces(
        "X U X U X U X U X \
         X X X X X X X X X \
         X X X U X U X X X \
         X U X U X U X U X \
         X X X X X X X X X \
         X X X U X U X X X",
    );
    assert_eq!(masked.state(), expected);
    let masked = GeoCube::new(3).mask(&CubeMask::EdgeOrient);
    assert_eq!(masked.state(), expected);
}

#[test]
fn whole_mask_keeps_state() {
    let cube = FaceletCube::new(3).apply_move(Move::F(Inverse));
    assert_eq!(cube.mask(&CubeMask::Whole).state(), cube.state());
}

#[test]
fn mask_commutes_with_moves() {
    let cube = FaceletCube::new(3);
    let mv = Move::R(Standard);
    let a = cube.mask(&CubeMask::CornerEquator).apply_move(mv).state();
    let b = cube.apply_move(mv).mask(&CubeMask::CornerEquator).state();
    assert_eq!(a, b);
}

#[test]
fn sticker_index_positions() {
    assert_eq!(sticker_index(3, F, 1), 18);
    assert_eq!(sticker_index(3, U, 1), 0);
    assert_eq!(sticker_index(3, B, 9), 53);
}

#[test]
fn all_moves_counts() {
    assert_eq!(all_moves(2).len(), 18 + 18);
    assert_eq!(all_moves(3).len(), 18 + 18);
    assert_eq!(all_moves(4).len(), 18 + 36);
    assert!(all_moves(3).contains(&Move::U(Double)));
    assert!(all_moves(4).contains(&Move::Rw(2, Inverse)));
}

#[test]
fn from_faces_checks_its_input() {
    let solved = FaceletCube::new(3);
    let rebuilt = FaceletCube::from_faces(3, &solved.state()).unwrap();
    assert!(rebuilt.is_solved());
    assert_eq!(rebuilt.state(), solved.state());
    let scrambled = solved.apply_move(Move::R(Standard));
    let copy = FaceletCube::from_faces(3, &scrambled.state()).unwrap();
    assert_eq!(copy.state(), scrambled.state());
    assert!(!copy.is_solved());
    assert!(FaceletCube::from_faces(3, &vec![U; 10]).is_none());
    assert!(FaceletCube::from_faces(0, &vec![]).is_none());
    assert!(FaceletCube::from_faces(-2, &vec![U; 24]).is_none());
}

#[test]
fn all_moves_listing_order() {
    let moves = all_moves(4);
    assert_eq!(moves[0], Move::U(Standard));
    assert_eq!(moves[1], Move::U(Double));
    assert_eq!(moves[2], Move::U(Inverse));
    assert_eq!(moves[3], Move::R(Standard));
    assert_eq!(moves[17], Move::B(Inverse));
    assert_eq!(moves[18], Move::Uw(1, Standard));
    assert_eq!(moves[19], Move::Uw(2, Standard));
    assert_eq!(moves[20], Move::Uw(1, Double));
    assert_eq!(moves[21], Move::Uw(2, Double));
    assert_eq!(moves[23], Move::Uw(2, Inverse));
    assert_eq!(moves[24], Move::Lw(1, Standard));
    assert_eq!(moves[53], Move::Dw(2, Inverse));
    for i in 0..moves.len() {
        for j in (i + 1)..moves.len() {
            assert_ne!(moves[i], moves[j], "duplicate listing entries {i} and {j}");
        }
    }
}

#[test]
fn geo_cube_ranges_and_stickers() {
    assert_eq!(GeoCube::range(3), vec![-2, 0, 2]);
    assert_eq!(GeoCube::range(2), vec![-1, 1]);
    assert_eq!(GeoCube::new(3).stickers().len(), 54);
    assert_eq!(GeoCube::new(2).stickers().len(), 24);
}

#[test]
fn sizes_outside_the_range_are_rejected() {
    assert!(matches!(FaceletCube::try_new(0), Err(e) if e.size == 0));
    assert!(matches!(FaceletCube::try_new(-2), Err(e) if e.size == -2));
    assert!(matches!(GeoCube::try_new(1000), Err(e) if e.size == 1000));
    assert!(FaceletCube::try_new(3).unwrap().is_solved());
    assert!(GeoCube::try_new(2).unwrap().is_solved());
}

#[test]
fn cube_sizes() {
    assert_eq!(FaceletCube::new(4).size(), 4);
    assert_eq!(GeoCube::new(4).size(), 4);
}
