use cubesim::generic_cube::{Move, MoveVariant};
use cubesim::scramble_parser::{parse_scramble, random_scramble, simplify_moves};

use Move::{B, D, F, L, R, U, X};
use MoveVariant::{Double, Inverse, Standard};

#[test]
fn parse_simple_tokens() {
    let moves = parse_scramble(String::from("R2 U' F")).unwrap();
    assert_eq!(moves, vec![R(Double), U(Inverse), F(Standard)]);
}

#[test]
fn parse_wide_and_rotation_tokens() {
    let moves = parse_scramble(String::from("Uw' 3Rw2 x y' z2 Lw")).unwrap();
    assert_eq!(
        moves,
        vec![
            Move::Uw(2, Inverse),
            Move::Rw(3, Double),
            Move::X(Standard),
            Move::Y(Inverse),
            Move::Z(Double),
            Move::Lw(2, Standard),
        ]
    );
}

#[test]
fn parse_empty_scramble() {
    let moves = parse_scramble(String::from("   ")).unwrap();
    assert!(moves.is_empty());
}

#[test]
fn parse_rejects_unknown_token() {
    let err = parse_scramble(String::from("R2 Q F")).unwrap_err();
    assert_eq!(err.index, 1);
    let err = parse_scramble(String::from("R2'x")).unwrap_err();
    assert_eq!(err.index, 0);
    let err = parse_scramble(String::from("3R")).unwrap_err();
    assert_eq!(err.index, 0);
    let err = parse_scramble(String::from("999Uw")).unwrap_err();
    assert_eq!(err.index, 0);
}

#[test]
fn four_quarter_turns_cancel() {
    let moves = parse_scramble(String::from("R R R R")).unwrap();
    assert_eq!(simplify_moves(&moves), vec![]);
}

#[test]
fn two_quarter_turns_merge() {
    let moves = parse_scramble(String::from("R R")).unwrap();
    assert_eq!(simplify_moves(&moves), vec![R(Double)]);
}

#[test]
fn simplify_merges_across_cancellations() {
    let moves = parse_scramble(String::from("B B2 B' R B2 B' R2 R' F2")).unwrap();
    assert_eq!(
        simplify_moves(&moves),
        vec![B(Double), R(Standard), B(Standard), R(Standard), F(Double)]
    );
    let moves = parse_scramble(String::from("R R' U2 F F' U2 x")).unwrap();
    assert_eq!(simplify_moves(&moves), vec![X(Standard)]);
}

#[test]
fn simplify_is_idempotent_on_examples() {
    for text in [
        "B B2 B' R B2 B' R2 R' F2",
        "R R R R",
        "U D U' D'",
        "Uw Uw Uw2 L",
        "x x x x R2 R2",
    ] {
        let moves = parse_scramble(String::from(text)).unwrap();
        let once = simplify_moves(&moves);
        let twice = simplify_moves(&once);
        assert_eq!(once, twice);
    }
}

#[test]
fn move_variant_access() {
    let mv = Move::Rw(3, Double);
    assert_eq!(mv.get_variant(), Double);
    assert_eq!(mv.with_variant(Inverse), Move::Rw(3, Inverse));
    assert_eq!(U(Standard).inverse(), U(Inverse));
    assert_eq!(D(Double).inverse(), D(Double));
}

#[test]
fn move_names_and_tokens() {
    assert_eq!(U(Standard).get_move_name(), "U");
    assert_eq!(Move::Uw(2, Standard).get_move_name(), "Uw");
    assert_eq!(Move::Uw(3, Standard).get_move_name(), "3Uw");
    assert_eq!(Move::Rw(12, Standard).get_move_name(), "12Rw");
    assert_eq!(Move::X(Standard).get_move_name(), "x");
    assert_eq!(R(Double).token(), "R2");
    assert_eq!(B(Inverse).token(), "B'");
    assert_eq!(Move::Fw(3, Inverse).token(), "3Fw'");
}

#[test]
fn tokens_parse_back_to_the_move() {
    let moves = vec![
        U(Standard),
        L(Inverse),
        F(Double),
        Move::Uw(2, Inverse),
        Move::Rw(3, Double),
        Move::Dw(10, Standard),
        Move::X(Standard),
        Move::Z(Inverse),
    ];
    for mv in moves {
        let parsed = parse_scramble(mv.token()).unwrap();
        assert_eq!(parsed, vec![mv]);
    }
}

#[test]
fn unicode_whitespace_separates_tokens() {
    let moves = parse_scramble(String::from("R2\u{000C}U'\u{2028}F\u{00A0}x")).unwrap();
    assert_eq!(moves, vec![R(Double), U(Inverse), F(Standard), Move::X(Standard)]);
}

#[test]
fn random_scramble_never_repeats_a_wide_layer_count() {
    let layer = |m: &Move| match m {
        Move::Uw(k, _) | Move::Lw(k, _) | Move::Fw(k, _) | Move::Rw(k, _) | Move::Bw(k, _)
        | Move::Dw(k, _) => Some(*k),
        _ => None,
    };
    for _ in 0..20 {
        let scramble = random_scramble(6, true);
        for w in scramble.windows(2) {
            if let (Some(a), Some(b)) = (layer(&w[0]), layer(&w[1])) {
                assert_ne!(a, b, "adjacent wide turns share a layer count");
            }
        }
    }
}

#[test]
fn random_scramble_respects_constraints() {
    for (size, wide) in [(2, false), (3, false), (3, true), (5, true)] {
        let scramble = random_scramble(size, wide);
        assert_eq!(scramble.len(), (size as usize) * 10);
        for w in scramble.windows(2) {
            assert_ne!(
                std::mem::discriminant(&w[0]),
                std::mem::discriminant(&w[1]),
                "adjacent moves share a family"
            );
            assert_ne!(w[0].get_variant(), w[1].get_variant());
        }
        for mv in &scramble {
            match mv {
                Move::Uw(k, _) | Move::Lw(k, _) | Move::Fw(k, _) | Move::Rw(k, _)
                | Move::Bw(k, _) | Move::Dw(k, _) => {
                    assert!(wide && 2 <= *k && *k < size);
                }
                Move::X(_) | Move::Y(_) | Move::Z(_) => panic!("rotation in scramble"),
                _ => {}
            }
        }
    }
}
