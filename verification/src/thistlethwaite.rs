//! A Thistlethwaite-style solver for the 3x3x3 cube: four phases descend
//! through a chain of nested move subgroups, each phase guided by a
//! breadth-first pruning table and searched with iterative deepening.
//!
//! The phase chain, with its coordinate projections:
//! 1. Orient edges under all eighteen face turns. Coordinate: the mask that
//!    marks each edge's reference facelet; edges are oriented exactly when
//!    the markers sit on marker slots.
//! 2. Orient corners and place the four equator edges in their slice,
//!    under moves that keep edges oriented (quarter turns of U, D, L, R;
//!    half turns of F, B). Coordinate: upper/lower corner facelet markers
//!    plus equator edge markers.
//! 3. Reach the half-turn subgroup, under moves that also keep corners
//!    oriented (quarter turns of U, D; half turns of the rest).
//!    Coordinate: full corner labels plus the slice class of every edge
//!    facelet; the goal states are the closure of the solved state's
//!    projection under half turns, computed once by search rather than
//!    written down.
//! 4. Finish with half turns only. Coordinate: the whole state.
//!
//! A solution is the concatenation of the phase solutions, simplified once.

use vstd::prelude::*;

use crate::facelet_cube::{FaceletCube, MoveTable};
use crate::generic_cube::{
    solved_view, spec_solved_state, view_apply_seq, view_faces, view_wf, Cube, Face, Move,
    MoveVariant,
};
use crate::generic_solver::{PruningTable, Solver};
use crate::laws::{lemma_simplify_preserves_effect, lemma_view_apply_seq_concat};
use crate::masking::{
    lemma_mask_commute_seq, lemma_mask_idempotent, lemma_whole_mask_solves, view_mask, CubeMask,
};
use crate::scramble_parser::{
    is_simplified, push_merge, simplify_moves, spec_simplify, spec_simplify_acc,
};

verus! {

/// A single-layer face turn: the only moves the solver emits.
pub open spec fn single_turn(m: Move) -> bool {
    m is U || m is L || m is F || m is R || m is B || m is D
}

/// Single-layer turns apply to every cube size.
proof fn lemma_single_turn_wf(m: Move, n: int)
    requires
        single_turn(m),
    ensures
        m.wf(n),
{
}

/// Merging same-family moves keeps them single-layer turns.
proof fn lemma_push_merge_single(st: Seq<Move>, m: Move)
    requires
        forall|i: int| 0 <= i < st.len() ==> single_turn(#[trigger] st[i]),
        single_turn(m),
    ensures
        forall|i: int|
            0 <= i < push_merge(st, m).len() ==> single_turn(#[trigger] push_merge(st, m)[i]),
{
    let r = push_merge(st, m);
    assert forall|i: int| 0 <= i < r.len() implies single_turn(r[i]) by {
        if st.len() == 0 {
            assert(r[i] == m);
        } else if st.last().same_family(m) {
            let t = (crate::generic_cube::variant_turns(st.last().spec_variant())
                + crate::generic_cube::variant_turns(m.spec_variant())) % 4;
            if t == 0 {
                assert(r[i] == st[i]);
            } else {
                if i < r.len() - 1 {
                    assert(r[i] == st[i]);
                } else {
                    assert(single_turn(st.last()));
                }
            }
        } else {
            if i < r.len() - 1 {
                assert(r[i] == st[i]);
            } else {
                assert(r[i] == m);
            }
        }
    }
}

proof fn lemma_simplify_acc_single(st: Seq<Move>, s: Seq<Move>)
    requires
        forall|i: int| 0 <= i < st.len() ==> single_turn(#[trigger] st[i]),
        forall|i: int| 0 <= i < s.len() ==> single_turn(#[trigger] s[i]),
    ensures
        forall|i: int|
            0 <= i < spec_simplify_acc(st, s).len() ==> single_turn(
                #[trigger] spec_simplify_acc(st, s)[i],
            ),
    decreases s.len(),
{
    if s.len() == 0 {
        assert forall|i: int| 0 <= i < spec_simplify_acc(st, s).len() implies single_turn(
            #[trigger] spec_simplify_acc(st, s)[i],
        ) by {
            assert(spec_simplify_acc(st, s)[i] == st[i]);
        }
    } else {
        lemma_push_merge_single(st, s[0]);
        assert(forall|i: int|
            0 <= i < s.drop_first().len() ==> single_turn(#[trigger] s.drop_first()[i]));
        lemma_simplify_acc_single(push_merge(st, s[0]), s.drop_first());
        assert(spec_simplify_acc(st, s) == spec_simplify_acc(push_merge(st, s[0]), s.drop_first()));
    }
}

/// Simplifying a sequence of face turns yields face turns.
proof fn lemma_simplify_single(s: Seq<Move>)
    requires
        forall|i: int| 0 <= i < s.len() ==> single_turn(#[trigger] s[i]),
    ensures
        forall|i: int|
            0 <= i < spec_simplify(s).len() ==> single_turn(#[trigger] spec_simplify(s)[i]),
{
    lemma_simplify_acc_single(Seq::empty(), s);
}

/// The single-layer turn the solver's family number names.
spec fn spec_phase_family(fam: int, v: MoveVariant) -> Move {
    if fam == 0 {
        Move::U(v)
    } else if fam == 1 {
        Move::D(v)
    } else if fam == 2 {
        Move::L(v)
    } else if fam == 3 {
        Move::R(v)
    } else if fam == 4 {
        Move::F(v)
    } else {
        Move::B(v)
    }
}

/// The executable twin of [`spec_phase_family`].
fn family_turn(fam: usize, variant: MoveVariant) -> (r: Move)
    requires
        fam < 6,
    ensures
        r == spec_phase_family(fam as int, variant),
{
    match fam {
        0 => Move::U(variant),
        1 => Move::D(variant),
        2 => Move::L(variant),
        3 => Move::R(variant),
        4 => Move::F(variant),
        _ => Move::B(variant),
    }
}

/// A move set closed under inverses: every move's inverse is in the set,
/// which lets the breadth-first distances from the goals bound the
/// distances to the goals.
spec fn inverse_closed(s: Seq<Move>) -> bool {
    forall|i: int|
        0 <= i < s.len() ==> exists|j: int|
            0 <= j < s.len() && s[j] == (#[trigger] s[i]).spec_inverse()
}

/// The three variants of one single-layer family, appended; the listing
/// stays closed under inverses.
fn push_family(v: &mut Vec<Move>, fam: usize)
    requires
        fam < 6,
        forall|i: int| 0 <= i < old(v)@.len() ==> single_turn(#[trigger] old(v)@[i]),
        inverse_closed(old(v)@),
    ensures
        final(v)@.len() == old(v)@.len() + 3,
        forall|i: int| 0 <= i < final(v)@.len() ==> single_turn(#[trigger] final(v)@[i]),
        inverse_closed(final(v)@),
{
    let a = family_turn(fam, MoveVariant::Standard);
    let b = family_turn(fam, MoveVariant::Double);
    let c = family_turn(fam, MoveVariant::Inverse);
    let ghost n = old(v)@.len() as int;
    v.push(a);
    v.push(b);
    v.push(c);
    proof {
        assert(v@[n] == a && v@[n + 1] == b && v@[n + 2] == c);
        assert(forall|i: int| 0 <= i < n ==> #[trigger] v@[i] == old(v)@[i]);
        assert(a.spec_inverse() == c && b.spec_inverse() == b && c.spec_inverse() == a);
        assert forall|i: int| 0 <= i < v@.len() implies single_turn(#[trigger] v@[i]) by {
            if i < n {
                assert(v@[i] == old(v)@[i]);
            }
        }
        assert forall|i: int| 0 <= i < v@.len() implies exists|j: int|
            0 <= j < v@.len() && v@[j] == (#[trigger] v@[i]).spec_inverse() by {
            if i < n {
                let j = choose|j: int| 0 <= j < n && old(v)@[j] == old(v)@[i].spec_inverse();
                assert(v@[j] == v@[i].spec_inverse());
            } else if i == n {
                assert(v@[n + 2] == v@[i].spec_inverse());
            } else if i == n + 1 {
                assert(v@[n + 1] == v@[i].spec_inverse());
            } else {
                assert(v@[n] == v@[i].spec_inverse());
            }
        }
    }
}

/// All eighteen single-layer turns: the move set before any reduction.
fn moveset_free() -> (r: Vec<Move>)
    ensures
        forall|i: int| 0 <= i < r@.len() ==> single_turn(#[trigger] r@[i]),
        inverse_closed(r@),
{
    let mut v: Vec<Move> = Vec::new();
    let mut fam: usize = 0;
    while fam < 6
        invariant
            0 <= fam <= 6,
            forall|i: int| 0 <= i < v@.len() ==> single_turn(#[trigger] v@[i]),
            inverse_closed(v@),
        decreases 6 - fam,
    {
        push_family(&mut v, fam);
        fam = fam + 1;
    }
    v
}

/// Appends the half turn of one single-layer family, its own inverse.
fn push_double(v: &mut Vec<Move>, fam: usize)
    requires
        fam < 6,
        forall|i: int| 0 <= i < old(v)@.len() ==> single_turn(#[trigger] old(v)@[i]),
        inverse_closed(old(v)@),
    ensures
        forall|i: int| 0 <= i < final(v)@.len() ==> single_turn(#[trigger] final(v)@[i]),
        inverse_closed(final(v)@),
{
    let mv = family_turn(fam, MoveVariant::Double);
    let ghost n = old(v)@.len() as int;
    v.push(mv);
    proof {
        assert(v@[n] == mv);
        assert(mv.spec_inverse() == mv);
        assert(forall|i: int| 0 <= i < n ==> #[trigger] v@[i] == old(v)@[i]);
        assert forall|i: int| 0 <= i < v@.len() implies single_turn(#[trigger] v@[i]) by {
            if i < n {
                assert(v@[i] == old(v)@[i]);
            }
        }
        assert forall|i: int| 0 <= i < v@.len() implies exists|j: int|
            0 <= j < v@.len() && v@[j] == (#[trigger] v@[i]).spec_inverse() by {
            if i < n {
                let j = choose|j: int| 0 <= j < n && old(v)@[j] == old(v)@[i].spec_inverse();
                assert(v@[j] == v@[i].spec_inverse());
            } else {
                assert(v@[n] == v@[i].spec_inverse());
            }
        }
    }
}

/// The moves preserving edge orientation: U, D, L, R freely; F, B as half
/// turns.
fn moveset_quarter_ud_lr() -> (r: Vec<Move>)
    ensures
        forall|i: int| 0 <= i < r@.len() ==> single_turn(#[trigger] r@[i]),
        inverse_closed(r@),
{
    let mut v: Vec<Move> = Vec::new();
    push_family(&mut v, 0);
    push_family(&mut v, 1);
    push_family(&mut v, 2);
    push_family(&mut v, 3);
    push_double(&mut v, 4);
    push_double(&mut v, 5);
    v
}

/// The moves preserving corner orientation and the equator slice as well:
/// U, D freely; the rest as half turns.
fn moveset_quarter_ud() -> (r: Vec<Move>)
    ensures
        forall|i: int| 0 <= i < r@.len() ==> single_turn(#[trigger] r@[i]),
        inverse_closed(r@),
{
    let mut v: Vec<Move> = Vec::new();
    push_family(&mut v, 0);
    push_family(&mut v, 1);
    push_double(&mut v, 2);
    push_double(&mut v, 3);
    push_double(&mut v, 4);
    push_double(&mut v, 5);
    v
}

/// Half turns only: the innermost subgroup of the chain.
fn moveset_half_turns() -> (r: Vec<Move>)
    ensures
        forall|i: int| 0 <= i < r@.len() ==> single_turn(#[trigger] r@[i]),
        inverse_closed(r@),
{
    let mut v: Vec<Move> = Vec::new();
    let mut fam: usize = 0;
    while fam < 6
        invariant
            0 <= fam <= 6,
            forall|i: int| 0 <= i < v@.len() ==> single_turn(#[trigger] v@[i]),
            inverse_closed(v@),
        decreases 6 - fam,
    {
        push_double(&mut v, fam);
        fam = fam + 1;
    }
    v
}

/// Append one move vector to another.
fn extend_moves(all: &mut Vec<Move>, p: &Vec<Move>)
    ensures
        final(all)@ == old(all)@ + p@,
{
    let mut t: usize = 0;
    while t < p.len()
        invariant
            0 <= t <= p@.len(),
            all@ =~= old(all)@ + p@.take(t as int),
        decreases p@.len() - t,
    {
        all.push(p[t]);
        proof {
            assert(all@ =~= old(all)@ + p@.take(t + 1));
        }
        t = t + 1;
    }
    proof {
        assert(p@.take(p@.len() as int) =~= p@);
    }
}

/// The projections of every state the half-turn subgroup can reach from a
/// start state: the goal set of the third phase, found by search. The
/// closure is small; the cap is a safety stop far above its true size.
fn closure_seeds(start: &FaceletCube, kind: &CubeMask) -> (r: Vec<FaceletCube>)
    requires
        start.wf(),
        start.model().size == 3,
    ensures
        forall|i: int|
            0 <= i < r@.len() ==> (#[trigger] r@[i]).wf() && r@[i].model().size == 3,
        r@.len() >= 1,
        r@[0].model() == view_mask(start.model(), *kind),
{
    let doubles = moveset_half_turns();
    proof {
        assert forall|i: int| 0 <= i < doubles@.len() implies (#[trigger] doubles@[i]).wf(3) by {
            lemma_single_turn_wf(doubles@[i], 3);
        }
    }
    let mt = MoveTable::for_moves(3, &doubles);
    let first = start.mask(kind);
    let mut seeds: Vec<FaceletCube> = Vec::new();
    let mut states: Vec<Vec<Face>> = Vec::new();
    states.push(first.state());
    seeds.push(first);
    let mut qi: usize = 0;
    while qi < seeds.len()
        invariant
            mt.wf(),
            mt.spec_size() == 3,
            0 <= qi <= seeds@.len(),
            1 <= seeds@.len() <= 200,
            seeds@[0].model() == view_mask(start.model(), *kind),
            forall|i: int|
                0 <= i < seeds@.len() ==> (#[trigger] seeds@[i]).wf() && seeds@[i].model().size
                    == 3,
        decreases 200 - qi,
    {
        let ml = mt.len();
        let mut mi: usize = 0;
        while mi < ml
            invariant
                mt.wf(),
                mt.spec_size() == 3,
                ml as int == mt.move_count(),
                0 <= mi <= ml,
                0 <= qi < seeds@.len(),
                1 <= seeds@.len() <= 200,
                seeds@[0].model() == view_mask(start.model(), *kind),
                forall|i: int|
                    0 <= i < seeds@.len() ==> (#[trigger] seeds@[i]).wf()
                        && seeds@[i].model().size == 3,
            decreases ml - mi,
        {
            let nc = seeds[qi].apply_via(&mt, mi);
            let st = nc.state();
            let mut seen = false;
            let mut si: usize = 0;
            while si < states.len()
                invariant
                    0 <= si <= states@.len(),
                decreases states@.len() - si,
            {
                if crate::generic_solver::states_equal(&st, &states[si]) {
                    seen = true;
                }
                si = si + 1;
            }
            if !seen && seeds.len() < 200 {
                states.push(st);
                seeds.push(nc);
            }
            mi = mi + 1;
        }
        qi = qi + 1;
    }
    seeds
}

/// Run one phase: mask the cube, build the phase's tables, and search.
///
/// A returned sequence uses only the phase's moves and lands the masked
/// cube on the projection of one of the phase's seed states.
fn run_phase(
    current: &FaceletCube,
    kind: &CubeMask,
    moves: &Vec<Move>,
    seeds: &Vec<FaceletCube>,
    table_depth: u8,
    max_depth: u8,
) -> (r: Option<Vec<Move>>)
    requires
        current.wf(),
        current.model().size == 3,
        forall|i: int| 0 <= i < moves@.len() ==> single_turn(#[trigger] moves@[i]),
        inverse_closed(moves@),
        forall|i: int|
            0 <= i < seeds@.len() ==> (#[trigger] seeds@[i]).wf() && seeds@[i].model().size == 3,
        table_depth <= 30,
        max_depth < 255,
    ensures
        r matches Some(p) ==> {
            &&& forall|k: int| 0 <= k < p@.len() ==> single_turn(#[trigger] p@[k])
            &&& exists|g: int|
                0 <= g < seeds@.len() && view_faces(
                    view_apply_seq(view_mask(current.model(), *kind), p@),
                ) == view_faces(view_mask(seeds@[g].model(), *kind))
        },
        (exists|g: int|
            0 <= g < seeds@.len() && view_faces(view_mask(current.model(), *kind)) == view_faces(
                view_mask(seeds@[g].model(), *kind),
            )) ==> (r matches Some(p) && p@.len() == 0),
{
    proof {
        assert forall|i: int| 0 <= i < moves@.len() implies (#[trigger] moves@[i]).wf(3) by {
            lemma_single_turn_wf(moves@[i], 3);
        }
    }
    let mt = MoveTable::for_moves(3, moves);
    let mut masked_seeds: Vec<FaceletCube> = Vec::new();
    let mut goals: Vec<Vec<Face>> = Vec::new();
    let mut i: usize = 0;
    while i < seeds.len()
        invariant
            0 <= i <= seeds@.len(),
            forall|j: int|
                0 <= j < seeds@.len() ==> (#[trigger] seeds@[j]).wf() && seeds@[j].model().size
                    == 3,
            masked_seeds@.len() == i,
            goals@.len() == i,
            forall|j: int|
                0 <= j < i ==> (#[trigger] masked_seeds@[j]).wf()
                    && masked_seeds@[j].model().size == 3,
            forall|j: int|
                0 <= j < i ==> (#[trigger] masked_seeds@[j]).model() == view_mask(
                    seeds@[j].model(),
                    *kind,
                ),
            forall|j: int|
                0 <= j < i ==> (#[trigger] goals@[j])@ == view_faces(
                    view_mask(seeds@[j].model(), *kind),
                ),
        decreases seeds@.len() - i,
    {
        let m = seeds[i].mask(kind);
        let st = m.state();
        masked_seeds.push(m);
        goals.push(st);
        i = i + 1;
    }
    let pruning = PruningTable::new(&masked_seeds, table_depth, &mt, kind);
    let ghost moves_ghost = moves@;
    let ghost goals_ghost = goals@;
    proof {
        // the move table inherits the move listing's closure under inverses
        assert forall|i2: int| 0 <= i2 < mt.move_count() implies exists|j: int|
            0 <= j < mt.move_count() && mt.move_at(j) == (#[trigger] mt.move_at(
                i2,
            )).spec_inverse() by {
            let j = choose|j: int| 0 <= j < moves@.len() && moves@[j] == moves@[i2].spec_inverse();
            assert(mt.move_at(j) == moves@[j]);
            assert(mt.move_at(i2) == moves@[i2]);
        }
        assert forall|i2: int| 0 <= i2 < masked_seeds@.len() implies view_wf(
            (#[trigger] masked_seeds@[i2]).model(),
        ) && masked_seeds@[i2].model().size == 3 by {
            masked_seeds@[i2].wf_implies_view_wf();
        }
        let gseq = goals_ghost.map_values(|g: Vec<Face>| g@);
        assert(gseq.len() == masked_seeds@.len());
        assert forall|g2: int| 0 <= g2 < gseq.len() implies #[trigger] gseq[g2] == view_faces(
            masked_seeds@[g2].model(),
        ) by {
            assert(gseq[g2] == goals_ghost[g2]@);
        }
        crate::generic_solver::lemma_table_admissible(&pruning, mt, gseq, *kind, masked_seeds@);
    }
    let solver = Solver::new(mt, pruning, goals, *kind, max_depth);
    let masked_current = current.mask(kind);
    let r = solver.solve(&masked_current);
    proof {
        // a start already on a goal projection is a goal state of the search
        if exists|g: int|
            0 <= g < seeds@.len() && view_faces(view_mask(current.model(), *kind)) == view_faces(
                view_mask(seeds@[g].model(), *kind),
            ) {
            let g = choose|g: int|
                0 <= g < seeds@.len() && view_faces(view_mask(current.model(), *kind))
                    == view_faces(view_mask(seeds@[g].model(), *kind));
            assert(solver.spec_goals()[g] == goals_ghost[g]@);
            assert(view_faces(masked_current.model()) == solver.spec_goals()[g]);
            assert(solver.spec_is_goal(view_faces(masked_current.model())));
        }
    }
    match r {
        Some(p) => {
            proof {
                assert forall|k: int| 0 <= k < p@.len() implies single_turn(#[trigger] p@[k]) by {
                    let i2 = choose|i2: int|
                        0 <= i2 < solver.move_count() && #[trigger] p@[k] == solver.spec_move_at(
                            i2,
                        );
                    assert(p@[k] == moves_ghost[i2]);
                }
                let g = choose|g: int|
                    0 <= g < solver.spec_goals().len() && view_faces(
                        view_apply_seq(masked_current.model(), p@),
                    ) == solver.spec_goals()[g];
                assert(solver.spec_goals()[g] == goals_ghost[g]@);
                assert(view_faces(view_apply_seq(view_mask(current.model(), *kind), p@))
                    == view_faces(view_mask(seeds@[g].model(), *kind)));
            }
            Some(p)
        },
        None => None,
    }
}

/// Solve a cube: find a sequence of face turns that returns it to the
/// solved state, or report that none was found.
///
/// Only the classic 3x3x3 chain is implemented; other sizes report no
/// solution. A returned sequence is simplified and consists of single-layer
/// face turns only; applying it to the given cube yields the solved state.
/// A cube that is already the solved cube is solved by the empty sequence.
pub fn solve(cube: &FaceletCube) -> (r: Option<Vec<Move>>)
    requires
        cube.wf(),
    ensures
        r matches Some(sol) ==> {
            &&& view_faces(view_apply_seq(cube.model(), sol@)) == spec_solved_state(
                cube.model().size,
            )
            &&& forall|k: int| 0 <= k < sol@.len() ==> single_turn(#[trigger] sol@[k])
            &&& is_simplified(sol@)
        },
        cube.model() == solved_view(3) ==> (r matches Some(sol) && sol@.len() == 0),
{
    let size = cube.size();
    if size != 3 {
        proof {
            assert(cube.model().size != 3);
            assert(cube.model() != solved_view(3));
        }
        return None;
    }
    proof {
        cube.wf_implies_view_wf();
    }
    let ghost v0 = cube.model();
    let mut current = cube.duplicate();
    let mut all: Vec<Move> = Vec::new();
    proof {
        assert(view_apply_seq(v0, all@) == current.model());
    }

    let solved = FaceletCube::new(3);
    let mut plain_seeds: Vec<FaceletCube> = Vec::new();
    plain_seeds.push(solved);
    proof {
        assert(plain_seeds@.len() == 1);
        assert(plain_seeds@[0].model() == solved_view(3));
    }

    // phase 1: orient edges
    let g0 = moveset_free();
    let p1 = run_phase(&current, &CubeMask::EdgeOrient, &g0, &plain_seeds, 7, 7);
    proof {
        assert(cube.model() == solved_view(3) ==> exists|g: int|
            0 <= g < plain_seeds@.len() && view_faces(
                view_mask(current.model(), CubeMask::EdgeOrient),
            ) == view_faces(view_mask(plain_seeds@[g].model(), CubeMask::EdgeOrient))) by {
            if cube.model() == solved_view(3) {
                assert(view_faces(view_mask(current.model(), CubeMask::EdgeOrient))
                    == view_faces(view_mask(plain_seeds@[0].model(), CubeMask::EdgeOrient)));
            }
        }
    }
    match p1 {
        Some(p) => {
            let ghost old_all = all@;
            proof {
                assert forall|k: int| 0 <= k < p@.len() implies (#[trigger] p@[k]).wf(
                    current.model().size,
                ) by {
                    lemma_single_turn_wf(p@[k], current.model().size);
                }
                lemma_view_apply_seq_concat(v0, all@, p@);
            }
            let next = current.apply_moves(&p);
            extend_moves(&mut all, &p);
            current = next;
            proof {
                assert(current.model() == view_apply_seq(v0, all@));
                crate::laws::lemma_view_apply_seq_wf(v0, all@);
                assert(current.model().size == 3);
                assert forall|k: int| 0 <= k < all@.len() implies single_turn(
                    #[trigger] all@[k],
                ) by {
                    if k < old_all.len() {
                        assert(all@[k] == old_all[k]);
                    } else {
                        assert(all@[k] == p@[k - old_all.len()]);
                    }
                }
                assert(cube.model() == solved_view(3) ==> all@.len() == 0 && current.model()
                    == solved_view(3)) by {
                    if cube.model() == solved_view(3) {
                        assert(p@.len() == 0);
                        assert(all@.len() == 0);
                        assert(all@ =~= Seq::<Move>::empty());
                        assert(view_apply_seq(v0, all@) == v0);
                    }
                }
            }
        },
        None => {
            return None;
        },
    }

    // phase 2: orient corners, place the equator edges
    let g1 = moveset_quarter_ud_lr();
    let p2 = run_phase(&current, &CubeMask::CornerEquator, &g1, &plain_seeds, 6, 10);
    proof {
        assert(cube.model() == solved_view(3) ==> exists|g: int|
            0 <= g < plain_seeds@.len() && view_faces(
                view_mask(current.model(), CubeMask::CornerEquator),
            ) == view_faces(view_mask(plain_seeds@[g].model(), CubeMask::CornerEquator))) by {
            if cube.model() == solved_view(3) {
                assert(view_faces(view_mask(current.model(), CubeMask::CornerEquator))
                    == view_faces(view_mask(plain_seeds@[0].model(), CubeMask::CornerEquator)));
            }
        }
    }
    match p2 {
        Some(p) => {
            let ghost old_all = all@;
            proof {
                assert forall|k: int| 0 <= k < p@.len() implies (#[trigger] p@[k]).wf(
                    current.model().size,
                ) by {
                    lemma_single_turn_wf(p@[k], current.model().size);
                }
                lemma_view_apply_seq_concat(v0, all@, p@);
            }
            let next = current.apply_moves(&p);
            extend_moves(&mut all, &p);
            current = next;
            proof {
                assert(current.model() == view_apply_seq(v0, all@));
                crate::laws::lemma_view_apply_seq_wf(v0, all@);
                assert(current.model().size == 3);
                assert forall|k: int| 0 <= k < all@.len() implies single_turn(
                    #[trigger] all@[k],
                ) by {
                    if k < old_all.len() {
                        assert(all@[k] == old_all[k]);
                    } else {
                        assert(all@[k] == p@[k - old_all.len()]);
                    }
                }
                assert(cube.model() == solved_view(3) ==> all@.len() == 0 && current.model()
                    == solved_view(3)) by {
                    if cube.model() == solved_view(3) {
                        assert(p@.len() == 0);
                        assert(old_all.len() == 0);
                        assert(all@.len() == 0);
                        assert(all@ =~= Seq::<Move>::empty());
                        assert(view_apply_seq(v0, all@) == v0);
                    }
                }
            }
        },
        None => {
            return None;
        },
    }

    // phase 3: into the half-turn subgroup
    let g2 = moveset_quarter_ud();
    let seeds3 = closure_seeds(&plain_seeds[0], &CubeMask::TetradSlices);
    let p3 = run_phase(&current, &CubeMask::TetradSlices, &g2, &seeds3, 6, 13);
    proof {
        assert(cube.model() == solved_view(3) ==> exists|g: int|
            0 <= g < seeds3@.len() && view_faces(
                view_mask(current.model(), CubeMask::TetradSlices),
            ) == view_faces(view_mask(seeds3@[g].model(), CubeMask::TetradSlices))) by {
            if cube.model() == solved_view(3) {
                assert(seeds3@[0].model() == view_mask(solved_view(3), CubeMask::TetradSlices));
                lemma_mask_idempotent(solved_view(3), CubeMask::TetradSlices);
                assert(view_faces(view_mask(current.model(), CubeMask::TetradSlices))
                    == view_faces(view_mask(seeds3@[0].model(), CubeMask::TetradSlices)));
            }
        }
    }
    match p3 {
        Some(p) => {
            let ghost old_all = all@;
            proof {
                assert forall|k: int| 0 <= k < p@.len() implies (#[trigger] p@[k]).wf(
                    current.model().size,
                ) by {
                    lemma_single_turn_wf(p@[k], current.model().size);
                }
                lemma_view_apply_seq_concat(v0, all@, p@);
            }
            let next = current.apply_moves(&p);
            extend_moves(&mut all, &p);
            current = next;
            proof {
                assert(current.model() == view_apply_seq(v0, all@));
                crate::laws::lemma_view_apply_seq_wf(v0, all@);
                assert(current.model().size == 3);
                assert forall|k: int| 0 <= k < all@.len() implies single_turn(
                    #[trigger] all@[k],
                ) by {
                    if k < old_all.len() {
                        assert(all@[k] == old_all[k]);
                    } else {
                        assert(all@[k] == p@[k - old_all.len()]);
                    }
                }
                assert(cube.model() == solved_view(3) ==> all@.len() == 0 && current.model()
                    == solved_view(3)) by {
                    if cube.model() == solved_view(3) {
                        assert(p@.len() == 0);
                        assert(old_all.len() == 0);
                        assert(all@.len() == 0);
                        assert(all@ =~= Seq::<Move>::empty());
                        assert(view_apply_seq(v0, all@) == v0);
                    }
                }
            }
        },
        None => {
            return None;
        },
    }

    // phase 4: finish with half turns
    let g3 = moveset_half_turns();
    let p4 = run_phase(&current, &CubeMask::Whole, &g3, &plain_seeds, 7, 15);
    proof {
        assert(cube.model() == solved_view(3) ==> exists|g: int|
            0 <= g < plain_seeds@.len() && view_faces(view_mask(current.model(), CubeMask::Whole))
                == view_faces(view_mask(plain_seeds@[g].model(), CubeMask::Whole))) by {
            if cube.model() == solved_view(3) {
                assert(view_faces(view_mask(current.model(), CubeMask::Whole)) == view_faces(
                    view_mask(plain_seeds@[0].model(), CubeMask::Whole),
                ));
            }
        }
    }
    match p4 {
        Some(p) => {
            let ghost old_all = all@;
            let ghost before = current.model();
            proof {
                assert forall|k: int| 0 <= k < p@.len() implies (#[trigger] p@[k]).wf(
                    current.model().size,
                ) by {
                    lemma_single_turn_wf(p@[k], current.model().size);
                }
                lemma_view_apply_seq_concat(v0, all@, p@);
                current.wf_implies_view_wf();
                assert(view_wf(before));
            }
            let next = current.apply_moves(&p);
            extend_moves(&mut all, &p);
            current = next;
            proof {
                assert(current.model() == view_apply_seq(v0, all@));
                assert forall|k: int| 0 <= k < all@.len() implies single_turn(
                    #[trigger] all@[k],
                ) by {
                    if k < old_all.len() {
                        assert(all@[k] == old_all[k]);
                    } else {
                        assert(all@[k] == p@[k - old_all.len()]);
                    }
                }
                let g = choose|g: int|
                    0 <= g < plain_seeds@.len() && view_faces(
                        view_apply_seq(view_mask(before, CubeMask::Whole), p@),
                    ) == view_faces(view_mask(plain_seeds@[g].model(), CubeMask::Whole));
                assert(g == 0);
                crate::laws::lemma_view_apply_seq_wf(v0, all@);
                lemma_mask_commute_seq(before, CubeMask::Whole, p@);
                assert(view_faces(view_mask(current.model(), CubeMask::Whole)) == view_faces(
                    view_mask(plain_seeds@[0].model(), CubeMask::Whole),
                ));
                assert(current.model().size == 3);
                lemma_whole_mask_solves(current.model());
                assert(view_faces(current.model()) == spec_solved_state(3));
                assert(cube.model() == solved_view(3) ==> all@.len() == 0) by {
                    if cube.model() == solved_view(3) {
                        assert(p@.len() == 0);
                        assert(old_all.len() == 0);
                    }
                }
            }
        },
        None => {
            return None;
        },
    }
    let sol = simplify_moves(&all);
    proof {
        lemma_simplify_preserves_effect(v0, all@);
        lemma_simplify_single(all@);
        assert(view_faces(view_apply_seq(v0, sol@)) == spec_solved_state(3));
        assert(cube.model() == solved_view(3) ==> sol@.len() == 0) by {
            if cube.model() == solved_view(3) {
                assert(all@.len() == 0);
                assert(all@ =~= Seq::<Move>::empty());
                assert(sol@ == spec_simplify_acc(Seq::<Move>::empty(), Seq::<Move>::empty()));
                assert(sol@.len() == 0);
            }
        }
    }
    Some(sol)
}

} // verus!
