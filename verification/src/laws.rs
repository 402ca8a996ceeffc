//! The laws the cube representations obey: a fresh cube is solved, a move
//! sequence is undone by its reversed inverse, the two representations
//! agree, and simplifying a move sequence never changes its effect.
//!
//! All laws are stated over [`CubeView`], the shared model both
//! representations are verified against, so each holds of every value the
//! representations can produce.

use vstd::prelude::*;

use crate::generic_cube::{
    solved_view, spec_is_solved, valid_size, variant_of_turns, variant_turns, view_apply,
    view_apply_seq, view_faces, view_wf, Cube, CubeView, Move,
};
use crate::geometric_cube::{lemma_slot_perm_inverse, lemma_slot_perm_merge, lemma_slot_perm_valid};
use crate::scramble_parser::{push_merge, spec_simplify, spec_simplify_acc};

verus! {

/// A freshly created cube of any valid size is solved.
pub proof fn lemma_new_is_solved(n: int)
    requires
        valid_size(n),
    ensures
        spec_is_solved(view_faces(solved_view(n)), n),
{
    let s = view_faces(solved_view(n));
    assert forall|i: int| 0 <= i < s.len() implies #[trigger] s[i] == s[(i / (n * n)) * (n * n)] by {
        let b = i / (n * n);
        assert(1 <= n * n) by (nonlinear_arith)
            requires
                1 <= n,
        ;
        vstd::arithmetic::div_mod::lemma_fundamental_div_mod(i, n * n);
        assert(0 <= b < 6) by (nonlinear_arith)
            requires
                0 <= i < 6 * n * n,
                i == (n * n) * b + i % (n * n),
                0 <= i % (n * n) < n * n,
        ;
        assert(0 <= b * (n * n) < 6 * n * n) by (nonlinear_arith)
            requires
                0 <= b < 6,
                1 <= n,
        ;
        assert((b * (n * n)) / (n * n) == b) by {
            vstd::arithmetic::div_mod::lemma_fundamental_div_mod_converse(b * (n * n), n * n, b, 0);
        }
    }
}

/// Applying one sequence and then another is applying their concatenation.
pub proof fn lemma_view_apply_seq_concat(v: CubeView, x: Seq<Move>, y: Seq<Move>)
    ensures
        view_apply_seq(v, x + y) == view_apply_seq(view_apply_seq(v, x), y),
    decreases x.len(),
{
    if x.len() == 0 {
        assert(x + y =~= y);
    } else {
        assert((x + y)[0] == x[0]);
        assert((x + y).drop_first() =~= x.drop_first() + y);
        lemma_view_apply_seq_concat(view_apply(v, x[0]), x.drop_first(), y);
    }
}

/// Moves keep a model well-formed, sequence-wise.
pub proof fn lemma_view_apply_seq_wf(v: CubeView, mvs: Seq<Move>)
    requires
        view_wf(v),
    ensures
        view_wf(view_apply_seq(v, mvs)),
        view_apply_seq(v, mvs).size == v.size,
    decreases mvs.len(),
{
    if mvs.len() > 0 {
        lemma_view_apply_seq_wf(view_apply(v, mvs[0]), mvs.drop_first());
    }
}

/// A move followed by its inverse leaves the model unchanged.
pub proof fn lemma_view_apply_inverse(v: CubeView, mv: Move)
    requires
        view_wf(v),
    ensures
        view_apply(view_apply(v, mv), mv.spec_inverse()) == v,
{
    let n = v.size;
    let w = view_apply(view_apply(v, mv), mv.spec_inverse());
    assert forall|s: int| 0 <= s < w.entries.len() implies w.entries[s] == v.entries[s] by {
        lemma_slot_perm_valid(n, mv.spec_inverse(), s);
        lemma_slot_perm_inverse(n, mv, s);
    }
    assert(w.entries =~= v.entries);
    assert(w =~= v);
}

/// The moves that undo a sequence: each move inverted, in reverse order.
pub open spec fn spec_inverse_sequence(mvs: Seq<Move>) -> Seq<Move> {
    mvs.reverse().map_values(|m: Move| m.spec_inverse())
}

/// Round trip: a move sequence followed by its reversed inverse returns any
/// well-formed model to where it started.
pub proof fn lemma_round_trip(v: CubeView, mvs: Seq<Move>)
    requires
        view_wf(v),
    ensures
        view_apply_seq(view_apply_seq(v, mvs), spec_inverse_sequence(mvs)) == v,
    decreases mvs.len(),
{
    if mvs.len() == 0 {
        assert(spec_inverse_sequence(mvs) =~= Seq::<Move>::empty());
    } else {
        let m0 = mvs[0];
        let rest = mvs.drop_first();
        let v1 = view_apply(v, m0);
        assert(spec_inverse_sequence(mvs) =~= spec_inverse_sequence(rest) + seq![
            m0.spec_inverse(),
        ]);
        assert(view_apply_seq(v, mvs) == view_apply_seq(v1, rest));
        crate::generic_cube::lemma_view_apply_wf(v, m0);
        lemma_round_trip(v1, rest);
        lemma_view_apply_seq_concat(
            view_apply_seq(v1, rest),
            spec_inverse_sequence(rest),
            seq![m0.spec_inverse()],
        );
        assert(view_apply_seq(v1, seq![m0.spec_inverse()]) == view_apply(v1, m0.spec_inverse()))
            by {
            let one = seq![m0.spec_inverse()];
            assert(one.len() == 1 && one[0] == m0.spec_inverse());
            assert(one.drop_first() =~= Seq::<Move>::empty());
            assert(view_apply_seq(v1, one) == view_apply_seq(
                view_apply(v1, one[0]),
                one.drop_first(),
            ));
        }
        lemma_view_apply_inverse(v, m0);
    }
}

/// The two cube representations agree: values with equal models still agree
/// after any common move sequence. Each representation's `apply_move` is
/// verified against the same slot permutation, so the array form bootstrapped
/// from the geometric form computes the states the geometric form computes.
pub proof fn lemma_forms_agree<C1: Cube, C2: Cube>(a: C1, b: C2, mvs: Seq<Move>)
    requires
        a.model() == b.model(),
    ensures
        view_faces(view_apply_seq(a.model(), mvs)) == view_faces(view_apply_seq(b.model(), mvs)),
{
}

/// Two same-family moves in a row act like their merged move.
pub proof fn lemma_view_apply_merge(v: CubeView, a: Move, b: Move)
    requires
        view_wf(v),
        a.same_family(b),
    ensures
        ({
            let t = (variant_turns(a.spec_variant()) + variant_turns(b.spec_variant())) % 4;
            if t == 0 {
                view_apply(view_apply(v, a), b) == v
            } else {
                view_apply(view_apply(v, a), b) == view_apply(
                    v,
                    a.spec_with_variant(variant_of_turns(t)),
                )
            }
        }),
{
    let n = v.size;
    let t = (variant_turns(a.spec_variant()) + variant_turns(b.spec_variant())) % 4;
    let w = view_apply(view_apply(v, a), b);
    if t == 0 {
        assert forall|s: int| 0 <= s < w.entries.len() implies w.entries[s] == v.entries[s] by {
            lemma_slot_perm_valid(n, b, s);
            lemma_slot_perm_merge(n, a, b, s);
        }
        assert(w.entries =~= v.entries);
        assert(w =~= v);
    } else {
        let c = a.spec_with_variant(variant_of_turns(t));
        let u = view_apply(v, c);
        assert forall|s: int| 0 <= s < w.entries.len() implies w.entries[s] == u.entries[s] by {
            lemma_slot_perm_valid(n, b, s);
            lemma_slot_perm_merge(n, a, b, s);
        }
        assert(w.entries =~= u.entries);
        assert(w =~= u);
    }
}

#[verifier::rlimit(100)]
proof fn lemma_simplify_acc_effect(v: CubeView, st: Seq<Move>, s: Seq<Move>)
    requires
        view_wf(v),
    ensures
        view_apply_seq(v, spec_simplify_acc(st, s)) == view_apply_seq(v, st + s),
    decreases s.len(),
{
    if s.len() == 0 {
        assert(st + s =~= st);
    } else {
        let m = s[0];
        let pm = push_merge(st, m);
        lemma_simplify_acc_effect(v, pm, s.drop_first());
        assert(spec_simplify_acc(st, s) == spec_simplify_acc(pm, s.drop_first()));
        assert(pm + s.drop_first() =~= pm + s.drop_first());
        // both continuations start from the same model
        assert(view_apply_seq(v, pm) == view_apply_seq(v, st.push(m))) by {
            if st.len() == 0 || !st.last().same_family(m) {
                assert(pm =~= st.push(m));
            } else {
                let t = (variant_turns(st.last().spec_variant()) + variant_turns(m.spec_variant()))
                    % 4;
                let stub = st.drop_last();
                let w = view_apply_seq(v, stub);
                lemma_view_apply_seq_wf(v, stub);
                assert(st =~= stub.push(st.last()));
                assert(st.push(m) =~= stub + seq![st.last(), m]);
                lemma_view_apply_seq_concat(v, stub, seq![st.last(), m]);
                assert(view_apply_seq(w, seq![st.last(), m]) == view_apply(
                    view_apply(w, st.last()),
                    m,
                )) by {
                    let two = seq![st.last(), m];
                    assert(two.len() == 2 && two[0] == st.last());
                    assert(two.drop_first() =~= seq![m]);
                    let w1 = view_apply(w, st.last());
                    assert(view_apply_seq(w, two) == view_apply_seq(w1, two.drop_first()));
                    let one = seq![m];
                    assert(one.len() == 1 && one[0] == m);
                    assert(one.drop_first() =~= Seq::<Move>::empty());
                    assert(view_apply_seq(w1, one) == view_apply_seq(
                        view_apply(w1, m),
                        one.drop_first(),
                    ));
                }
                lemma_view_apply_merge(w, st.last(), m);
                if t == 0 {
                    assert(pm =~= stub);
                } else {
                    let merged = st.last().spec_with_variant(variant_of_turns(t));
                    assert(pm =~= stub.push(merged));
                    lemma_view_apply_seq_concat(v, stub, seq![merged]);
                    assert(pm =~= stub + seq![merged]);
                    assert(view_apply_seq(w, seq![merged]) == view_apply(w, merged)) by {
                        let one = seq![merged];
                        assert(one.len() == 1 && one[0] == merged);
                        assert(one.drop_first() =~= Seq::<Move>::empty());
                        assert(view_apply_seq(w, one) == view_apply_seq(
                            view_apply(w, merged),
                            one.drop_first(),
                        ));
                    }
                }
            }
        }
        lemma_view_apply_seq_concat(v, pm, s.drop_first());
        lemma_view_apply_seq_concat(v, st.push(m), s.drop_first());
        assert(st.push(m) + s.drop_first() =~= st + s);
    }
}

/// Simplifying a move sequence never changes what it does to a cube.
pub proof fn lemma_simplify_preserves_effect(v: CubeView, s: Seq<Move>)
    requires
        view_wf(v),
    ensures
        view_apply_seq(v, spec_simplify(s)) == view_apply_seq(v, s),
{
    lemma_simplify_acc_effect(v, Seq::empty(), s);
    assert(Seq::<Move>::empty() + s =~= s);
}

} // verus!
