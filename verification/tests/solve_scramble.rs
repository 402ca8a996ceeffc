use cubesim::facelet_cube::FaceletCube;
use cubesim::generic_cube::Cube;
use cubesim::scramble_parser::parse_scramble;
use cubesim::thistlethwaite::solve;

#[test]
fn solves_a_twenty_move_scramble() {
    let scramble =
        parse_scramble(String::from("U R2 F B R B2 R U2 L B2 R U' D' R2 F R' L B2 U2 F2"))
            .unwrap();
    let cube = FaceletCube::new(3).apply_moves(&scramble);
    let solution = solve(&cube).expect("the scramble should be solvable");
    assert!(cube.apply_moves(&solution).is_solved());
}
