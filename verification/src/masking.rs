//! Masks: projections of cube state that blank out the stickers irrelevant
//! to one solver phase.
//!
//! A mask decides, from a sticker's home index and its current label, what
//! label the masked cube shows. The solver phases each use one fixed mask,
//! so masks form a small enumeration rather than arbitrary functions.
//! Sticker classes are read off the home index's geometric position: a
//! corner sticker's centre has no zero coordinate, an edge sticker's centre
//! has exactly one.

use vstd::prelude::*;

use crate::generic_cube::{CubeSize, CubeView, Face, Move};
use crate::geometric_cube::{slot_pos, slot_position, Coord};

verus! {

/// The mask a solver phase applies before encoding a cube.
#[derive(Clone, Copy, Debug, Eq, PartialEq, Structural)]
pub enum CubeMask {
    /// Marks the reference facelet of every edge: the facelet on the upper
    /// or lower face for edges with one, else the facelet on the front or
    /// back face. The first phase's goal is that the markers sit on the
    /// marker slots, which is edge orientation.
    EdgeOrient,
    /// Marks every corner facelet belonging to the upper or lower face, and
    /// every facelet of the four equator edges. The second phase's goal is
    /// that the markers sit home: corners oriented, equator edges in their
    /// slice.
    CornerEquator,
    /// Keeps corner labels whole and collapses each edge facelet to the
    /// slice its edge belongs to.
    TetradSlices,
    /// Keeps every label: the identity projection.
    Whole,
}

/// How many coordinates of a position are zero.
pub open spec fn zero_count(p: Coord) -> int {
    (if p.x == 0 {
        1int
    } else {
        0int
    }) + (if p.y == 0 {
        1int
    } else {
        0int
    }) + (if p.z == 0 {
        1int
    } else {
        0int
    })
}

/// What a mask shows for a sticker with the given home index and label.
pub open spec fn spec_mask_face(m: CubeMask, n: int, home: int, f: Face) -> Face {
    if !(0 <= home < 6 * n * n) {
        Face::X
    } else {
        let p = slot_pos(n, home);
        match m {
            CubeMask::EdgeOrient => {
                if zero_count(p) == 1 && (p.y == n || p.y == -n || (p.y == 0 && (p.z == n || p.z
                    == -n))) {
                    Face::U
                } else {
                    Face::X
                }
            },
            CubeMask::CornerEquator => {
                if zero_count(p) == 0 && (p.y == n || p.y == -n) {
                    Face::U
                } else if zero_count(p) == 1 && p.y == 0 {
                    Face::F
                } else {
                    Face::X
                }
            },
            CubeMask::TetradSlices => {
                if zero_count(p) == 0 {
                    f
                } else if zero_count(p) == 1 && p.x == 0 {
                    Face::U
                } else if zero_count(p) == 1 && p.z == 0 {
                    Face::R
                } else if zero_count(p) == 1 && p.y == 0 {
                    Face::F
                } else {
                    Face::X
                }
            },
            CubeMask::Whole => f,
        }
    }
}

/// The model of a masked cube: labels projected, home indices kept.
pub open spec fn view_mask(v: CubeView, m: CubeMask) -> CubeView {
    CubeView {
        size: v.size,
        entries: Seq::new(
            v.entries.len(),
            |s: int| (spec_mask_face(m, v.size, v.entries[s].1, v.entries[s].0), v.entries[s].1),
        ),
    }
}

/// The executable twin of [`spec_mask_face`].
pub fn mask_face(m: &CubeMask, n: CubeSize, home: CubeSize, f: Face) -> (r: Face)
    requires
        crate::generic_cube::valid_size(n as int),
    ensures
        r == spec_mask_face(*m, n as int, home as int, f),
{
    proof {
        assert(1 <= n as int * n as int <= 104 * 104) by (nonlinear_arith)
            requires
                1 <= n as int <= 104,
        ;
        assert(6 * (n as int * n as int) == 6 * n as int * n as int) by (nonlinear_arith);
    }
    let nn: i32 = n * n;
    if home < 0 || home >= 6 * nn {
        return Face::X;
    }
    let p = slot_position(n, home as usize);
    let zeros: i32 = (if p.x == 0 {
        1
    } else {
        0
    }) + (if p.y == 0 {
        1
    } else {
        0
    }) + (if p.z == 0 {
        1
    } else {
        0
    });
    match m {
        CubeMask::EdgeOrient => {
            if zeros == 1 && (p.y == n || p.y == -n || (p.y == 0 && (p.z == n || p.z == -n))) {
                Face::U
            } else {
                Face::X
            }
        },
        CubeMask::CornerEquator => {
            if zeros == 0 && (p.y == n || p.y == -n) {
                Face::U
            } else if zeros == 1 && p.y == 0 {
                Face::F
            } else {
                Face::X
            }
        },
        CubeMask::TetradSlices => {
            if zeros == 0 {
                f
            } else if zeros == 1 && p.x == 0 {
                Face::U
            } else if zeros == 1 && p.z == 0 {
                Face::R
            } else if zeros == 1 && p.y == 0 {
                Face::F
            } else {
                Face::X
            }
        },
        CubeMask::Whole => f,
    }
}


/// Masking twice is masking once: what a mask shows depends on the label
/// only where it passes the label through unchanged.
pub proof fn lemma_mask_idempotent(v: CubeView, m: CubeMask)
    ensures
        view_mask(view_mask(v, m), m) == view_mask(v, m),
{
    let a = view_mask(view_mask(v, m), m);
    let b = view_mask(v, m);
    assert(a.entries =~= b.entries);
    assert(a =~= b);
}

/// Masking commutes with moves: a move permutes label-and-home pairs, and
/// the mask rewrites labels from homes alone.
pub proof fn lemma_mask_commute(v: CubeView, m: CubeMask, mv: Move)
    requires
        crate::generic_cube::view_wf(v),
    ensures
        crate::generic_cube::view_apply(view_mask(v, m), mv) == view_mask(
            crate::generic_cube::view_apply(v, mv),
            m,
        ),
{
    let a = crate::generic_cube::view_apply(view_mask(v, m), mv);
    let b = view_mask(crate::generic_cube::view_apply(v, mv), m);
    assert forall|s: int| 0 <= s < a.entries.len() implies a.entries[s] == b.entries[s] by {
        crate::geometric_cube::lemma_slot_perm_valid(v.size, mv, s);
    }
    assert(a.entries =~= b.entries);
    assert(a =~= b);
}

/// Masking commutes with whole move sequences.
pub proof fn lemma_mask_commute_seq(v: CubeView, m: CubeMask, mvs: Seq<Move>)
    requires
        crate::generic_cube::view_wf(v),
    ensures
        crate::generic_cube::view_apply_seq(view_mask(v, m), mvs) == view_mask(
            crate::generic_cube::view_apply_seq(v, mvs),
            m,
        ),
    decreases mvs.len(),
{
    if mvs.len() > 0 {
        lemma_mask_commute(v, m, mvs[0]);
        crate::generic_cube::lemma_view_apply_wf(v, mvs[0]);
        lemma_mask_commute_seq(crate::generic_cube::view_apply(v, mvs[0]), m, mvs.drop_first());
    }
}

/// The identity mask hides nothing of the solved state, so matching it
/// through the identity mask is being solved.
pub proof fn lemma_whole_mask_solves(v: CubeView)
    requires
        crate::generic_cube::view_wf(v),
        crate::generic_cube::view_faces(view_mask(v, CubeMask::Whole))
            == crate::generic_cube::view_faces(
            view_mask(crate::generic_cube::solved_view(v.size), CubeMask::Whole),
        ),
    ensures
        crate::generic_cube::view_faces(v) == crate::generic_cube::spec_solved_state(v.size),
{
    let n = v.size;
    let lhs = crate::generic_cube::view_faces(view_mask(v, CubeMask::Whole));
    let rhs = crate::generic_cube::view_faces(
        view_mask(crate::generic_cube::solved_view(n), CubeMask::Whole),
    );
    assert forall|s: int| 0 <= s < 6 * n * n implies crate::generic_cube::view_faces(v)[s]
        == crate::generic_cube::spec_solved_state(n)[s] by {
        assert(rhs[s] == crate::generic_cube::ordered_face(s / (n * n)));
        assert(lhs[s] == rhs[s]);
        assert(crate::generic_cube::ordered_face(s / (n * n)) != Face::X);
        assert(lhs[s] == spec_mask_face(CubeMask::Whole, n, v.entries[s].1, v.entries[s].0));
    }
    assert(crate::generic_cube::view_faces(v) =~= crate::generic_cube::spec_solved_state(n));
}

} // verus!
