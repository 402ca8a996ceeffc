//! Faces, moves and move variants of an NxNxN cube, together with the
//! spec-level model that the rest of the crate states its contracts over.

use vstd::prelude::*;

verus! {

/// The side length of a cube.
pub type CubeSize = i32;

/// Largest supported side length: home indices are stored as `u16`, so the
/// sticker count `6 * size * size` must stay within `u16` range.
pub const MAX_SIZE: i32 = 104;

/// Sizes the representations support: at least one, and small enough that
/// every sticker index fits in a `u16`.
pub open spec fn valid_size(n: int) -> bool {
    1 <= n <= MAX_SIZE
}

/// A face of a cube sticker, in WCA notation.
#[derive(Clone, Copy, Debug, Eq, Hash, PartialEq, Structural)]
pub enum Face {
    /// Upper face.
    U,
    /// Left face.
    L,
    /// Front face.
    F,
    /// Right face.
    R,
    /// Back face.
    B,
    /// Down face.
    D,
    /// Masked face: a placeholder for stickers blanked out by a mask.
    X,
}

/// The canonical ordering of the six faces used to lay out cube state.
pub const ORDERED_FACES: [Face; 6] = [Face::U, Face::R, Face::F, Face::D, Face::L, Face::B];

/// The face whose block occupies positions `k*size*size .. (k+1)*size*size`
/// of a state sequence.
pub open spec fn ordered_face(k: int) -> Face {
    if k == 0 {
        Face::U
    } else if k == 1 {
        Face::R
    } else if k == 2 {
        Face::F
    } else if k == 3 {
        Face::D
    } else if k == 4 {
        Face::L
    } else {
        Face::B
    }
}

/// A turn amount attached to every move.
#[derive(Clone, Copy, Debug, Eq, Hash, PartialEq, Structural)]
pub enum MoveVariant {
    /// A 90 degree clockwise turn.
    Standard,
    /// A 180 degree turn.
    Double,
    /// A 90 degree counter-clockwise turn.
    Inverse,
}

/// The number of clockwise quarter turns a variant performs, in `1..=3`.
pub open spec fn variant_turns(v: MoveVariant) -> int {
    match v {
        MoveVariant::Standard => 1,
        MoveVariant::Double => 2,
        MoveVariant::Inverse => 3,
    }
}

/// The variant performing `t` clockwise quarter turns, for `t` in `1..=3`.
pub open spec fn variant_of_turns(t: int) -> MoveVariant {
    if t == 1 {
        MoveVariant::Standard
    } else if t == 2 {
        MoveVariant::Double
    } else {
        MoveVariant::Inverse
    }
}

impl MoveVariant {
    /// The number of clockwise quarter turns this variant performs.
    pub fn turns(&self) -> (r: u8)
        ensures
            r as int == variant_turns(*self),
    {
        match self {
            MoveVariant::Standard => 1,
            MoveVariant::Double => 2,
            MoveVariant::Inverse => 3,
        }
    }

    /// The variant undoing this one: together they make four quarter turns.
    pub fn inverse(&self) -> (r: MoveVariant)
        ensures
            variant_turns(*self) + variant_turns(r) == 4,
    {
        match self {
            MoveVariant::Standard => MoveVariant::Inverse,
            MoveVariant::Double => MoveVariant::Double,
            MoveVariant::Inverse => MoveVariant::Standard,
        }
    }
}

/// A move of an NxNxN cube in WCA notation: a single-layer face turn, a wide
/// turn of the outer `n` layers, or a whole-cube rotation about a principal
/// axis, each tagged with a [`MoveVariant`].
#[derive(Clone, Copy, Debug, Eq, Hash, PartialEq, Structural)]
pub enum Move {
    /// Rotate the upper layer.
    U(MoveVariant),
    /// Rotate the left layer.
    L(MoveVariant),
    /// Rotate the front layer.
    F(MoveVariant),
    /// Rotate the right layer.
    R(MoveVariant),
    /// Rotate the back layer.
    B(MoveVariant),
    /// Rotate the down layer.
    D(MoveVariant),
    /// Rotate the uppermost n layers.
    Uw(CubeSize, MoveVariant),
    /// Rotate the leftmost n layers.
    Lw(CubeSize, MoveVariant),
    /// Rotate the frontmost n layers.
    Fw(CubeSize, MoveVariant),
    /// Rotate the rightmost n layers.
    Rw(CubeSize, MoveVariant),
    /// Rotate the backmost n layers.
    Bw(CubeSize, MoveVariant),
    /// Rotate the downmost n layers.
    Dw(CubeSize, MoveVariant),
    /// Rotate the entire cube along the x-axis.
    X(MoveVariant),
    /// Rotate the entire cube along the y-axis.
    Y(MoveVariant),
    /// Rotate the entire cube along the z-axis.
    Z(MoveVariant),
}

impl Move {
    /// The variant carried by a move.
    pub open spec fn spec_variant(self) -> MoveVariant {
        match self {
            Move::U(v) | Move::L(v) | Move::F(v) | Move::R(v) | Move::B(v) | Move::D(v)
            | Move::X(v) | Move::Y(v) | Move::Z(v) => v,
            Move::Uw(_, v) | Move::Lw(_, v) | Move::Fw(_, v) | Move::Rw(_, v) | Move::Bw(_, v)
            | Move::Dw(_, v) => v,
        }
    }

    /// The same move with its variant replaced.
    pub open spec fn spec_with_variant(self, variant: MoveVariant) -> Move {
        match self {
            Move::U(_) => Move::U(variant),
            Move::L(_) => Move::L(variant),
            Move::F(_) => Move::F(variant),
            Move::R(_) => Move::R(variant),
            Move::B(_) => Move::B(variant),
            Move::D(_) => Move::D(variant),
            Move::Uw(n, _) => Move::Uw(n, variant),
            Move::Lw(n, _) => Move::Lw(n, variant),
            Move::Fw(n, _) => Move::Fw(n, variant),
            Move::Rw(n, _) => Move::Rw(n, variant),
            Move::Bw(n, _) => Move::Bw(n, variant),
            Move::Dw(n, _) => Move::Dw(n, variant),
            Move::X(_) => Move::X(variant),
            Move::Y(_) => Move::Y(variant),
            Move::Z(_) => Move::Z(variant),
        }
    }

    /// Whether a move is a whole-cube reorientation.
    pub open spec fn is_rotation(self) -> bool {
        self is X || self is Y || self is Z
    }

    /// Whether a move is a wide turn.
    pub open spec fn is_wide(self) -> bool {
        self is Uw || self is Lw || self is Fw || self is Rw || self is Bw || self is Dw
    }

    /// The move undoing this one: same family, complementary turns.
    pub open spec fn spec_inverse(self) -> Move {
        self.spec_with_variant(variant_of_turns(4 - variant_turns(self.spec_variant())))
    }

    /// Two moves are of the same family when they differ at most in variant.
    pub open spec fn same_family(self, other: Move) -> bool {
        self.spec_with_variant(other.spec_variant()) == other
    }

    /// A move applies to a cube of size `n`: wide turns may grab at most `n`
    /// layers.
    pub open spec fn wf(self, n: int) -> bool {
        match self {
            Move::Uw(k, _) | Move::Lw(k, _) | Move::Fw(k, _) | Move::Rw(k, _) | Move::Bw(k, _)
            | Move::Dw(k, _) => 1 <= k <= n,
            _ => true,
        }
    }

    /// Extracts the MoveVariant of a Move.
    pub fn get_variant(&self) -> (r: MoveVariant)
        ensures
            r == self.spec_variant(),
    {
        match self {
            Move::U(v) | Move::L(v) | Move::F(v) | Move::R(v) | Move::B(v) | Move::D(v)
            | Move::X(v) | Move::Y(v) | Move::Z(v) => *v,
            Move::Uw(_, v) | Move::Lw(_, v) | Move::Fw(_, v) | Move::Rw(_, v) | Move::Bw(_, v)
            | Move::Dw(_, v) => *v,
        }
    }

    /// Returns the Move with the given MoveVariant.
    pub fn with_variant(&self, variant: MoveVariant) -> (r: Move)
        ensures
            r == self.spec_with_variant(variant),
    {
        match self {
            Move::U(_) => Move::U(variant),
            Move::L(_) => Move::L(variant),
            Move::F(_) => Move::F(variant),
            Move::R(_) => Move::R(variant),
            Move::B(_) => Move::B(variant),
            Move::D(_) => Move::D(variant),
            Move::Uw(n, _) => Move::Uw(*n, variant),
            Move::Lw(n, _) => Move::Lw(*n, variant),
            Move::Fw(n, _) => Move::Fw(*n, variant),
            Move::Rw(n, _) => Move::Rw(*n, variant),
            Move::Bw(n, _) => Move::Bw(*n, variant),
            Move::Dw(n, _) => Move::Dw(*n, variant),
            Move::X(_) => Move::X(variant),
            Move::Y(_) => Move::Y(variant),
            Move::Z(_) => Move::Z(variant),
        }
    }

    /// The move undoing this one: same family, inverse variant.
    pub fn inverse(&self) -> (r: Move)
        ensures
            r == self.spec_inverse(),
    {
        self.with_variant(self.get_variant().inverse())
    }
}

/// The solved state of a cube of side `size`: six uniform blocks of
/// `size * size` stickers, in canonical face order.
pub open spec fn spec_solved_state(size: int) -> Seq<Face> {
    Seq::new((6 * size * size) as nat, |i: int| ordered_face(i / (size * size)))
}

/// A state is solved when each of its six blocks is uniform.
pub open spec fn spec_is_solved(s: Seq<Face>, size: int) -> bool {
    forall|i: int| 0 <= i < s.len() ==> #[trigger] s[i] == s[(i / (size * size)) * (size * size)]
}

/// Get the solved state for a cube of a given size.
pub fn solved_state(size: CubeSize) -> (r: Vec<Face>)
    requires
        valid_size(size as int),
    ensures
        r@ == spec_solved_state(size as int),
{
    proof {
        assert(1 <= size as int * size as int <= 104 * 104) by (nonlinear_arith)
            requires
                1 <= size as int <= 104,
        ;
    }
    let ss: usize = (size as usize) * (size as usize);
    let mut r: Vec<Face> = Vec::new();
    let mut b: usize = 0;
    while b < 6
        invariant
            valid_size(size as int),
            ss == size * size,
            0 <= b <= 6,
            r@.len() == b * ss,
            forall|i: int| 0 <= i < r@.len() ==> r@[i] == ordered_face(i / (size * size)),
        decreases 6 - b,
    {
        let face = ORDERED_FACES[b];
        let mut j: usize = 0;
        while j < ss
            invariant
                valid_size(size as int),
                ss == size * size,
                0 <= b < 6,
                0 <= j <= ss,
                face == ordered_face(b as int),
                r@.len() == b * ss + j,
                forall|i: int| 0 <= i < r@.len() ==> r@[i] == ordered_face(i / (size * size)),
            decreases ss - j,
        {
            proof {
                let n = r@.len() as int;
                assert(n == b * ss + j);
                assert(n / (size as int * size as int) == b) by (nonlinear_arith)
                    requires
                        n == b * ss + j,
                        ss == size as int * size as int,
                        0 <= j < ss,
                        0 <= b,
                        1 <= size as int,
                ;
            }
            r.push(face);
            j = j + 1;
        }
        proof {
            assert((b + 1) * ss == b * ss + ss) by (nonlinear_arith);
        }
        b = b + 1;
    }
    proof {
        assert(6 * (size as int) * (size as int) == 6 * ((size as int) * (size as int)))
            by (nonlinear_arith);
        assert(r@ =~= spec_solved_state(size as int));
    }
    r
}

/// Get the index of a specific piece on a specific face: stickers on a face
/// of side `size` are numbered from 1, and faces follow the canonical order.
pub fn sticker_index(size: CubeSize, face: Face, index: CubeSize) -> (r: CubeSize)
    requires
        valid_size(size as int),
        face != Face::X,
        1 <= index <= size * size,
    ensures
        r == spec_face_number(face) * size * size + index - 1,
{
    proof {
        assert(1 <= size as int * size as int <= 104 * 104) by (nonlinear_arith)
            requires
                1 <= size as int <= 104,
        ;
    }
    let block: i32 = match face {
        Face::U => 0,
        Face::R => 1,
        Face::F => 2,
        Face::D => 3,
        Face::L => 4,
        Face::B => 5,
        Face::X => 0,
    };
    proof {
        assert(0 <= block as int * (size as int) * (size as int) <= 5 * 104 * 104)
            by (nonlinear_arith)
            requires
                0 <= block as int <= 5,
                1 <= size as int <= 104,
        ;
    }
    block * size * size + index - 1
}

/// The position of a face in the canonical ordering.
pub open spec fn spec_face_number(face: Face) -> int {
    match face {
        Face::U => 0,
        Face::R => 1,
        Face::F => 2,
        Face::D => 3,
        Face::L => 4,
        Face::B => 5,
        Face::X => 0,
    }
}

/// The single-layer move of family number `k` (in enumeration order) with
/// the given variant.
pub open spec fn family_move(k: int, v: MoveVariant) -> Move {
    if k == 0 {
        Move::U(v)
    } else if k == 1 {
        Move::R(v)
    } else if k == 2 {
        Move::F(v)
    } else if k == 3 {
        Move::L(v)
    } else if k == 4 {
        Move::D(v)
    } else {
        Move::B(v)
    }
}

/// The wide turn of family number `k` (in enumeration order) grabbing the
/// given layers, with the given variant.
pub open spec fn wide_family_move(k: int, layers: CubeSize, v: MoveVariant) -> Move {
    if k == 0 {
        Move::Uw(layers, v)
    } else if k == 1 {
        Move::Lw(layers, v)
    } else if k == 2 {
        Move::Fw(layers, v)
    } else if k == 3 {
        Move::Rw(layers, v)
    } else if k == 4 {
        Move::Bw(layers, v)
    } else {
        Move::Dw(layers, v)
    }
}

/// The move standing at position `i` of [`all_moves`]: the eighteen
/// single-layer turns, family by family with the three variants in turn,
/// then the wide turns, family by family, variant by variant, layer counts
/// ascending.
pub open spec fn spec_all_moves_index(size: int, i: int) -> Move {
    if i < 18 {
        family_move(i / 3, variant_of_turns(i % 3 + 1))
    } else {
        let half = size / 2;
        let j = i - 18;
        wide_family_move(
            j / half / 3,
            (j % half + 1) as CubeSize,
            variant_of_turns(j / half % 3 + 1),
        )
    }
}

/// Every move of a cube of the given size: all single-layer turns, then all
/// wide turns of up to half the cube's layers, each in all three variants.
/// Position `i` of the listing holds exactly
/// `spec_all_moves_index(size, i)`.
pub fn all_moves(size: CubeSize) -> (r: Vec<Move>)
    requires
        valid_size(size as int),
    ensures
        forall|i: int| 0 <= i < r@.len() ==> (#[trigger] r@[i]).wf(size as int),
        forall|i: int| 0 <= i < r@.len() ==> !(#[trigger] r@[i]).is_rotation(),
        forall|v: MoveVariant|
            r@.contains(Move::U(v)) && r@.contains(Move::R(v)) && r@.contains(Move::F(v))
                && r@.contains(Move::L(v)) && r@.contains(Move::D(v)) && r@.contains(Move::B(v)),
        r@.len() == 18 + 18 * (size / 2),
        forall|i: int| 0 <= i < r@.len() ==> #[trigger] r@[i] == spec_all_moves_index(size as int, i),
{
    let mut r: Vec<Move> = Vec::new();

    let mut fi: usize = 0;
    while fi < 6
        invariant
            0 <= fi <= 6,
            r@.len() == 3 * fi,
            forall|i: int| 0 <= i < r@.len() ==> (#[trigger] r@[i]).wf(size as int),
            forall|i: int| 0 <= i < r@.len() ==> !(#[trigger] r@[i]).is_rotation(),
            forall|i: int|
                0 <= i < r@.len() ==> #[trigger] r@[i] == spec_all_moves_index(size as int, i),
            forall|v: MoveVariant| fi >= 1 ==> r@.contains(Move::U(v)),
            forall|v: MoveVariant| fi >= 2 ==> r@.contains(Move::R(v)),
            forall|v: MoveVariant| fi >= 3 ==> r@.contains(Move::F(v)),
            forall|v: MoveVariant| fi >= 4 ==> r@.contains(Move::L(v)),
            forall|v: MoveVariant| fi >= 5 ==> r@.contains(Move::D(v)),
            forall|v: MoveVariant| fi >= 6 ==> r@.contains(Move::B(v)),
        decreases 6 - fi,
    {
        let mut vi: usize = 0;
        while vi < 3
            invariant
                0 <= vi <= 3,
                0 <= fi < 6,
                r@.len() == 3 * fi + vi,
                forall|i: int| 0 <= i < r@.len() ==> (#[trigger] r@[i]).wf(size as int),
                forall|i: int| 0 <= i < r@.len() ==> !(#[trigger] r@[i]).is_rotation(),
                forall|i: int|
                    0 <= i < r@.len() ==> #[trigger] r@[i] == spec_all_moves_index(size as int, i),
                forall|v: MoveVariant| fi >= 1 ==> r@.contains(Move::U(v)),
                forall|v: MoveVariant| fi >= 2 ==> r@.contains(Move::R(v)),
                forall|v: MoveVariant| fi >= 3 ==> r@.contains(Move::F(v)),
                forall|v: MoveVariant| fi >= 4 ==> r@.contains(Move::L(v)),
                forall|v: MoveVariant| fi >= 5 ==> r@.contains(Move::D(v)),
                vi >= 1 ==> r@.contains(family_move(fi as int, MoveVariant::Standard)),
                vi >= 2 ==> r@.contains(family_move(fi as int, MoveVariant::Double)),
                vi >= 3 ==> r@.contains(family_move(fi as int, MoveVariant::Inverse)),
            decreases 3 - vi,
        {
            let v = match vi {
                0 => MoveVariant::Standard,
                1 => MoveVariant::Double,
                _ => MoveVariant::Inverse,
            };
            let mv = match fi {
                0 => Move::U(v),
                1 => Move::R(v),
                2 => Move::F(v),
                3 => Move::L(v),
                4 => Move::D(v),
                _ => Move::B(v),
            };
            let ghost old_r = r@;
            r.push(mv);
            proof {
                lemma_push_keeps_contains(old_r, mv);
                assert(r@[old_r.len() as int] == mv);
                assert((3 * fi + vi) / 3 == fi as int && (3 * fi + vi) % 3 == vi as int) by {
                    vstd::arithmetic::div_mod::lemma_fundamental_div_mod_converse(
                        3 * fi + vi,
                        3,
                        fi as int,
                        vi as int,
                    );
                }
                assert(spec_all_moves_index(size as int, old_r.len() as int) == mv);
            }
            vi = vi + 1;
        }
        proof {
            assert forall|v: MoveVariant| #[trigger] variant_turns(v) >= 0 implies r@.contains(
                family_move(fi as int, v),
            ) by {
                match v {
                    MoveVariant::Standard => {},
                    MoveVariant::Double => {},
                    MoveVariant::Inverse => {},
                }
            }
            assert forall|v: MoveVariant| true implies r@.contains(family_move(fi as int, v)) by {
                assert(variant_turns(v) >= 0);
            }
        }
        fi = fi + 1;
    }

    let half: i32 = size / 2;
    let mut fi: usize = 0;
    while fi < 6
        invariant
            0 <= fi <= 6,
            half == size / 2,
            valid_size(size as int),
            r@.len() == 18 + 3 * fi * half,
            forall|i: int| 0 <= i < r@.len() ==> (#[trigger] r@[i]).wf(size as int),
            forall|i: int| 0 <= i < r@.len() ==> !(#[trigger] r@[i]).is_rotation(),
            forall|i: int|
                0 <= i < r@.len() ==> #[trigger] r@[i] == spec_all_moves_index(size as int, i),
            forall|v: MoveVariant| r@.contains(Move::U(v)),
            forall|v: MoveVariant| r@.contains(Move::R(v)),
            forall|v: MoveVariant| r@.contains(Move::F(v)),
            forall|v: MoveVariant| r@.contains(Move::L(v)),
            forall|v: MoveVariant| r@.contains(Move::D(v)),
            forall|v: MoveVariant| r@.contains(Move::B(v)),
        decreases 6 - fi,
    {
        let mut vi: usize = 0;
        while vi < 3
            invariant
                0 <= vi <= 3,
                0 <= fi < 6,
                half == size / 2,
                valid_size(size as int),
                r@.len() == 18 + (3 * fi + vi) * half,
                forall|i: int| 0 <= i < r@.len() ==> (#[trigger] r@[i]).wf(size as int),
                forall|i: int| 0 <= i < r@.len() ==> !(#[trigger] r@[i]).is_rotation(),
                forall|i: int|
                    0 <= i < r@.len() ==> #[trigger] r@[i] == spec_all_moves_index(size as int, i),
                forall|v: MoveVariant| r@.contains(Move::U(v)),
                forall|v: MoveVariant| r@.contains(Move::R(v)),
                forall|v: MoveVariant| r@.contains(Move::F(v)),
                forall|v: MoveVariant| r@.contains(Move::L(v)),
                forall|v: MoveVariant| r@.contains(Move::D(v)),
                forall|v: MoveVariant| r@.contains(Move::B(v)),
            decreases 3 - vi,
        {
            let v = match vi {
                0 => MoveVariant::Standard,
                1 => MoveVariant::Double,
                _ => MoveVariant::Inverse,
            };
            let mut k: i32 = 1;
            while k <= half
                invariant
                    1 <= k <= half + 1,
                    0 <= fi < 6,
                    0 <= vi < 3,
                    half == size / 2,
                    valid_size(size as int),
                    v == variant_of_turns(vi + 1),
                    r@.len() == 18 + (3 * fi + vi) * half + (k - 1),
                    forall|i: int| 0 <= i < r@.len() ==> (#[trigger] r@[i]).wf(size as int),
                    forall|i: int| 0 <= i < r@.len() ==> !(#[trigger] r@[i]).is_rotation(),
                    forall|i: int|
                        0 <= i < r@.len() ==> #[trigger] r@[i] == spec_all_moves_index(
                            size as int,
                            i,
                        ),
                    forall|v2: MoveVariant| r@.contains(Move::U(v2)),
                    forall|v2: MoveVariant| r@.contains(Move::R(v2)),
                    forall|v2: MoveVariant| r@.contains(Move::F(v2)),
                    forall|v2: MoveVariant| r@.contains(Move::L(v2)),
                    forall|v2: MoveVariant| r@.contains(Move::D(v2)),
                    forall|v2: MoveVariant| r@.contains(Move::B(v2)),
                decreases half + 1 - k,
            {
                let mv = match fi {
                    0 => Move::Uw(k, v),
                    1 => Move::Lw(k, v),
                    2 => Move::Fw(k, v),
                    3 => Move::Rw(k, v),
                    4 => Move::Bw(k, v),
                    _ => Move::Dw(k, v),
                };
                let ghost old_r = r@;
                r.push(mv);
                proof {
                    lemma_push_keeps_contains(old_r, mv);
                    assert(r@[old_r.len() as int] == mv);
                    let j = (3 * fi + vi) * half + (k - 1);
                    assert(j / (half as int) == 3 * fi + vi && j % (half as int) == k - 1) by {
                        vstd::arithmetic::div_mod::lemma_fundamental_div_mod_converse(
                            j,
                            half as int,
                            3 * fi + vi,
                            k - 1,
                        );
                    }
                    assert((3 * fi + vi) / 3 == fi as int && (3 * fi + vi) % 3 == vi as int) by {
                        vstd::arithmetic::div_mod::lemma_fundamental_div_mod_converse(
                            3 * fi + vi,
                            3,
                            fi as int,
                            vi as int,
                        );
                    }
                    assert(spec_all_moves_index(size as int, old_r.len() as int) == mv);
                }
                k = k + 1;
            }
            proof {
                assert((3 * fi + vi + 1) * half == (3 * fi + vi) * half + half)
                    by (nonlinear_arith);
            }
            vi = vi + 1;
        }
        proof {
            assert(18 + (3 * (fi + 1)) * half == 18 + (3 * fi + 3) * half) by (nonlinear_arith);
        }
        fi = fi + 1;
    }
    proof {
        assert(18 + (3 * 6) * half == 18 + 18 * half);
    }
    r
}

/// Pushing onto a sequence keeps every move it already contains.
proof fn lemma_push_keeps_contains(s: Seq<Move>, m: Move)
    ensures
        forall|x: Move| s.contains(x) ==> #[trigger] s.push(m).contains(x),
        forall|i: int| 0 <= i < s.push(m).len() ==> #[trigger] s.push(m)[i] == if i < s.len() {
            s[i]
        } else {
            m
        },
{
    assert forall|x: Move| s.contains(x) implies s.push(m).contains(x) by {
        let j = choose|j: int| 0 <= j < s.len() && s[j] == x;
        assert(s.push(m)[j] == x);
    }
}


/// The mathematical model of a cube value: its size and, for every state
/// position, the face label showing there together with the home index of
/// the sticker showing it.
#[verifier::ext_equal]
pub struct CubeView {
    pub size: int,
    pub entries: Seq<(Face, int)>,
}

/// The face labels of a model, in state order.
pub open spec fn view_faces(v: CubeView) -> Seq<Face> {
    v.entries.map_values(|e: (Face, int)| e.0)
}

/// A well-formed model has a valid size and one entry per sticker.
pub open spec fn view_wf(v: CubeView) -> bool {
    valid_size(v.size) && v.entries.len() == 6 * v.size * v.size
}

/// The model of the solved cube: block `k` shows face `k` and every sticker
/// is home.
pub open spec fn solved_view(n: int) -> CubeView {
    CubeView { size: n, entries: Seq::new((6 * n * n) as nat, |i: int| (ordered_face(i / (n * n)), i)) }
}

/// One move of the model: every state position shows what stood at the
/// position the move pulls from, as given by the geometric slot permutation.
pub open spec fn view_apply(v: CubeView, mv: Move) -> CubeView {
    CubeView {
        size: v.size,
        entries: Seq::new(
            v.entries.len(),
            |s: int| v.entries[crate::geometric_cube::spec_slot_perm(v.size, mv, s)],
        ),
    }
}

/// A move sequence applied left to right.
pub open spec fn view_apply_seq(v: CubeView, mvs: Seq<Move>) -> CubeView
    decreases mvs.len(),
{
    if mvs.len() == 0 {
        v
    } else {
        view_apply_seq(view_apply(v, mvs[0]), mvs.drop_first())
    }
}

/// Applying one more move continues the fold.
pub proof fn lemma_view_apply_seq_snoc(v: CubeView, mvs: Seq<Move>, i: int)
    requires
        0 <= i < mvs.len(),
    ensures
        view_apply_seq(v, mvs.take(i + 1)) == view_apply(view_apply_seq(v, mvs.take(i)), mvs[i]),
    decreases i,
{
    let a = mvs.take(i + 1);
    let b = mvs.take(i);
    if i == 0 {
        assert(a.len() == 1 && a[0] == mvs[0]);
        assert(a.drop_first() =~= Seq::<Move>::empty());
        assert(b =~= Seq::<Move>::empty());
        assert(view_apply_seq(v, a) == view_apply_seq(view_apply(v, a[0]), a.drop_first()));
        assert(view_apply_seq(v, b) == v);
    } else {
        assert(a.len() == i + 1 && a[0] == mvs[0]);
        assert(b.len() == i && b[0] == mvs[0]);
        let v1 = view_apply(v, mvs[0]);
        assert(a.drop_first() =~= mvs.drop_first().take(i));
        assert(b.drop_first() =~= mvs.drop_first().take(i - 1));
        assert(view_apply_seq(v, a) == view_apply_seq(v1, mvs.drop_first().take(i)));
        assert(view_apply_seq(v, b) == view_apply_seq(v1, mvs.drop_first().take(i - 1)));
        lemma_view_apply_seq_snoc(v1, mvs.drop_first(), i - 1);
        assert(mvs.drop_first()[i - 1] == mvs[i]);
    }
}

/// Moves keep a model well-formed and keep its size.
pub proof fn lemma_view_apply_wf(v: CubeView, mv: Move)
    requires
        view_wf(v),
    ensures
        view_wf(view_apply(v, mv)),
        view_apply(v, mv).size == v.size,
{
}

/// A requested cube size outside the supported range: below one, or past
/// [`MAX_SIZE`].
#[derive(Clone, Copy, Debug, Eq, PartialEq, Structural)]
pub struct InvalidSizeError {
    /// The size that was asked for.
    pub size: CubeSize,
}

/// A cube representation: a persistent value holding `6 * size * size`
/// stickers, created solved, transformed into new values by moves.
///
/// Every implementation is modelled by the same [`CubeView`] and its moves
/// by the same geometric slot permutation, so any two implementations agree
/// on the state that a move sequence produces.
pub trait Cube: Sized {
    /// The representation's internal invariant.
    spec fn wf(&self) -> bool;

    /// The abstract model of this value.
    spec fn model(&self) -> CubeView;

    /// A well-formed cube has a well-formed model.
    proof fn wf_implies_view_wf(&self)
        requires
            self.wf(),
        ensures
            view_wf(self.model()),
    ;

    /// Creates a solved cube of the given size.
    fn new(size: CubeSize) -> (r: Self)
        requires
            valid_size(size as int),
        ensures
            r.wf(),
            r.model() == solved_view(size as int),
    ;

    /// Creates a solved cube of the given size, rejecting sizes outside
    /// the supported range.
    fn try_new(size: CubeSize) -> (r: Result<Self, InvalidSizeError>)
        ensures
            match r {
                Ok(c) => valid_size(size as int) && c.wf() && c.model() == solved_view(
                    size as int,
                ),
                Err(e) => !valid_size(size as int) && e.size == size,
            },
    ;

    /// The size of the cube.
    fn size(&self) -> (r: CubeSize)
        requires
            self.wf(),
        ensures
            r as int == self.model().size,
    ;

    /// A one-dimensional representation of the cube: the six face blocks in
    /// canonical order, each row-major.
    fn state(&self) -> (r: Vec<Face>)
        requires
            self.wf(),
        ensures
            r@ == view_faces(self.model()),
    ;

    /// Whether the cube is solved: every face block uniform.
    fn is_solved(&self) -> (r: bool)
        requires
            self.wf(),
        ensures
            r == spec_is_solved(view_faces(self.model()), self.model().size),
    ;

    /// Replace each sticker's label as a mask directs, keeping home
    /// indices: used to build the solver phases' coordinate projections.
    fn mask(&self, m: &crate::masking::CubeMask) -> (r: Self)
        requires
            self.wf(),
        ensures
            r.wf(),
            r.model() == crate::masking::view_mask(self.model(), *m),
    ;

    /// Apply a move to the cube, returning the turned cube.
    fn apply_move(&self, mv: Move) -> (r: Self)
        requires
            self.wf(),
            mv.wf(self.model().size),
        ensures
            r.wf(),
            r.model() == view_apply(self.model(), mv),
    ;

    /// Apply a sequence of moves, left to right.
    fn apply_moves(&self, mvs: &Vec<Move>) -> (r: Self)
        requires
            self.wf(),
            forall|i: int| 0 <= i < mvs@.len() ==> (#[trigger] mvs@[i]).wf(self.model().size),
        ensures
            r.wf(),
            r.model() == view_apply_seq(self.model(), mvs@),
    ;
}

/// Whether a state vector is solved, checked block by block.
pub fn check_solved_state(state: &Vec<Face>, size: CubeSize) -> (r: bool)
    requires
        valid_size(size as int),
        state@.len() == 6 * size * size,
    ensures
        r == spec_is_solved(state@, size as int),
{
    proof {
        assert(1 <= size as int * size as int <= 104 * 104) by (nonlinear_arith)
            requires
                1 <= size as int <= 104,
        ;
        assert(6 * (size as int * size as int) == 6 * size as int * size as int)
            by (nonlinear_arith);
    }
    let ss: usize = (size as usize) * (size as usize);
    let mut b: usize = 0;
    while b < 6
        invariant
            valid_size(size as int),
            ss == size * size,
            state@.len() == 6 * ss,
            0 <= b <= 6,
            forall|i: int|
                0 <= i < b * ss ==> #[trigger] state@[i] == state@[(i / (size as int * size as int))
                    * (size as int * size as int)],
        decreases 6 - b,
    {
        let mut j: usize = 0;
        while j < ss
            invariant
                valid_size(size as int),
                ss == size * size,
                state@.len() == 6 * ss,
                0 <= b < 6,
                0 <= j <= ss,
                forall|i: int|
                    0 <= i < b * ss ==> #[trigger] state@[i] == state@[(i / (size as int
                        * size as int)) * (size as int * size as int)],
                forall|i: int|
                    b * ss <= i < b * ss + j ==> #[trigger] state@[i] == state@[(i / (size as int
                        * size as int)) * (size as int * size as int)],
            decreases ss - j,
        {
            proof {
                let i = b * ss + j as int;
                assert(i / (size as int * size as int) == b && b * (size as int * size as int) == b
                    * ss) by (nonlinear_arith)
                    requires
                        i == b * ss + j,
                        ss == size as int * size as int,
                        0 <= j < ss,
                        0 <= b,
                        1 <= size as int,
                ;
            }
            proof {
                assert(ss <= 10816) by (nonlinear_arith)
                    requires
                        ss == size as int * size as int,
                        1 <= size as int <= 104,
                ;
                assert(b * ss + j < 6 * ss && b * ss < 6 * ss && 6 * ss <= 6 * 10816)
                    by (nonlinear_arith)
                    requires
                        0 <= b < 6,
                        0 <= j < ss,
                        ss <= 10816,
                ;
            }
            if state[b * ss + j] != state[b * ss] {
                proof {
                    let i = b * ss + j as int;
                    assert(state@[i] != state@[(i / (size as int * size as int)) * (size as int
                        * size as int)]);
                }
                return false;
            }
            j = j + 1;
        }
        proof {
            assert((b + 1) * ss == b * ss + ss) by (nonlinear_arith);
        }
        b = b + 1;
    }
    proof {
        assert(6 * ss == state@.len());
    }
    true
}


/// The character of a decimal digit.
pub open spec fn digit_char(d: int) -> char {
    ((48 + d) as u8) as char
}

/// The decimal digits of a layer count below one thousand.
pub open spec fn spec_layer_digits(k: int) -> Seq<char> {
    if k < 10 {
        seq![digit_char(k)]
    } else if k < 100 {
        seq![digit_char(k / 10), digit_char(k % 10)]
    } else {
        seq![digit_char(k / 100), digit_char((k / 10) % 10), digit_char(k % 10)]
    }
}

/// The name of a move without its turn suffix: the face letter, a leading
/// layer count for wide turns of other than two layers, and `w` for wide
/// turns; whole-cube rotations use the lowercase axis letters.
pub open spec fn spec_move_name(m: Move) -> Seq<char> {
    match m {
        Move::U(_) => seq!['U'],
        Move::L(_) => seq!['L'],
        Move::F(_) => seq!['F'],
        Move::R(_) => seq!['R'],
        Move::B(_) => seq!['B'],
        Move::D(_) => seq!['D'],
        Move::X(_) => seq!['x'],
        Move::Y(_) => seq!['y'],
        Move::Z(_) => seq!['z'],
        Move::Uw(k, _) => spec_wide_name(k as int, 'U'),
        Move::Lw(k, _) => spec_wide_name(k as int, 'L'),
        Move::Fw(k, _) => spec_wide_name(k as int, 'F'),
        Move::Rw(k, _) => spec_wide_name(k as int, 'R'),
        Move::Bw(k, _) => spec_wide_name(k as int, 'B'),
        Move::Dw(k, _) => spec_wide_name(k as int, 'D'),
    }
}

/// The name of a wide turn: optional layer count, face letter, `w`.
pub open spec fn spec_wide_name(k: int, c: char) -> Seq<char> {
    if k == 2 {
        seq![c, 'w']
    } else {
        spec_layer_digits(k) + seq![c, 'w']
    }
}

/// The suffix a variant appends to a move name.
pub open spec fn spec_variant_suffix(v: MoveVariant) -> Seq<char> {
    match v {
        MoveVariant::Standard => Seq::empty(),
        MoveVariant::Double => seq!['2'],
        MoveVariant::Inverse => seq!['\''],
    }
}

/// The canonical notation token of a move: its name and its turn suffix.
pub open spec fn spec_move_token(m: Move) -> Seq<char> {
    spec_move_name(m) + spec_variant_suffix(m.spec_variant())
}

/// Append one decimal digit to a string.
fn push_digit(out: &mut String, d: u32)
    requires
        d < 10,
    ensures
        final(out)@ == old(out)@ + seq![digit_char(d as int)],
{
    let lit: &str = match d {
        0 => "0",
        1 => "1",
        2 => "2",
        3 => "3",
        4 => "4",
        5 => "5",
        6 => "6",
        7 => "7",
        8 => "8",
        _ => "9",
    };
    proof {
        reveal_strlit("0");
        reveal_strlit("1");
        reveal_strlit("2");
        reveal_strlit("3");
        reveal_strlit("4");
        reveal_strlit("5");
        reveal_strlit("6");
        reveal_strlit("7");
        reveal_strlit("8");
        reveal_strlit("9");
    }
    out.append(lit);
    proof {
        assert(final(out)@ =~= old(out)@ + seq![digit_char(d as int)]);
    }
}

impl Move {
    /// The move's name: its token without the turn suffix.
    pub fn get_move_name(&self) -> (r: String)
        requires
            self.wf(999),
        ensures
            r@ == spec_move_name(*self),
    {
        let mut out = String::new();
        let (k, c, wide): (i32, &str, bool) = match self {
            Move::U(_) => (1, "U", false),
            Move::L(_) => (1, "L", false),
            Move::F(_) => (1, "F", false),
            Move::R(_) => (1, "R", false),
            Move::B(_) => (1, "B", false),
            Move::D(_) => (1, "D", false),
            Move::X(_) => (1, "x", false),
            Move::Y(_) => (1, "y", false),
            Move::Z(_) => (1, "z", false),
            Move::Uw(k, _) => (*k, "U", true),
            Move::Lw(k, _) => (*k, "L", true),
            Move::Fw(k, _) => (*k, "F", true),
            Move::Rw(k, _) => (*k, "R", true),
            Move::Bw(k, _) => (*k, "B", true),
            Move::Dw(k, _) => (*k, "D", true),
        };
        if wide && k != 2 {
            let ku = k as u32;
            if ku >= 100 {
                push_digit(&mut out, ku / 100);
            }
            if ku >= 10 {
                push_digit(&mut out, (ku / 10) % 10);
            }
            push_digit(&mut out, ku % 10);
            proof {
                assert(out@ =~= spec_layer_digits(k as int));
            }
        }
        proof {
            reveal_strlit("U");
            reveal_strlit("L");
            reveal_strlit("F");
            reveal_strlit("R");
            reveal_strlit("B");
            reveal_strlit("D");
            reveal_strlit("x");
            reveal_strlit("y");
            reveal_strlit("z");
        }
        out.append(c);
        if wide {
            proof {
                reveal_strlit("w");
            }
            out.append("w");
        }
        proof {
            assert(out@ =~= spec_move_name(*self));
        }
        out
    }

    /// The move's canonical notation token.
    pub fn token(&self) -> (r: String)
        requires
            self.wf(999),
        ensures
            r@ == spec_move_token(*self),
    {
        let mut out = self.get_move_name();
        match self.get_variant() {
            MoveVariant::Standard => {},
            MoveVariant::Double => {
                proof {
                    reveal_strlit("2");
                }
                out.append("2");
            },
            MoveVariant::Inverse => {
                proof {
                    reveal_strlit("'");
                }
                out.append("'");
            },
        }
        proof {
            assert(out@ =~= spec_move_token(*self));
        }
        out
    }
}

} // verus!
