//! The generic phase solver: a breadth-first pruning table over a phase's
//! coordinate space, and iterative-deepening search guided by it.
//!
//! A phase is given by a mask, a legal move set, and the goal states (the
//! masked states its target subgroup allows). The pruning table records,
//! for every coordinate discovered within a depth limit, the number of
//! moves needed to reach it from the goal states; a coordinate without an
//! entry lies deeper than the limit, which makes the table an admissible
//! lower bound for the search. Both halves carry proofs: the table's
//! contract states the coverage and exactness of the explored ball, and the
//! search's contract makes `None` a verdict — no legal sequence within the
//! depth bound reaches a goal — with admissibility resting on the move set
//! being closed under inverses.

use vstd::prelude::*;

use std::collections::HashMap;

use vstd::arithmetic::power::{
    lemma_pow0, lemma_pow1, lemma_pow_adds, lemma_pow_increases, lemma_pow_positive, pow,
};

use crate::facelet_cube::{FaceletCube, MoveTable};
use crate::generic_cube::{
    lemma_view_apply_wf, view_apply, view_apply_seq, view_faces, view_wf, Cube, CubeView, Face,
    Move,
};
use crate::geometric_cube::{lemma_slot_perm_center, lemma_slot_perm_valid, spec_slot_perm};
use crate::laws::{lemma_round_trip, lemma_view_apply_seq_wf, spec_inverse_sequence};
use crate::masking::CubeMask;

verus! {

broadcast use vstd::std_specs::hash::group_hash_axioms;

/// Whether two state vectors are equal.
pub fn states_equal(a: &Vec<Face>, b: &Vec<Face>) -> (r: bool)
    ensures
        r == (a@ == b@),
{
    if a.len() != b.len() {
        proof {
            assert(a@ != b@);
        }
        return false;
    }
    let mut i: usize = 0;
    while i < a.len()
        invariant
            a@.len() == b@.len(),
            0 <= i <= a@.len(),
            forall|k: int| 0 <= k < i ==> a@[k] == b@[k],
        decreases a@.len() - i,
    {
        if a[i] != b[i] {
            proof {
                assert(a@[i as int] != b@[i as int]);
            }
            return false;
        }
        i = i + 1;
    }
    proof {
        assert(a@ =~= b@);
    }
    true
}

/// The numeric base a mask's coordinate digits use.
pub open spec fn spec_base(kind: CubeMask) -> int {
    match kind {
        CubeMask::EdgeOrient | CubeMask::CornerEquator => 3,
        CubeMask::TetradSlices | CubeMask::Whole => 6,
    }
}

/// The digit a label contributes under a mask's packing.
pub open spec fn spec_digit(kind: CubeMask, f: Face) -> int {
    match kind {
        CubeMask::EdgeOrient | CubeMask::CornerEquator => match f {
            Face::U => 1,
            Face::F => 2,
            _ => 0,
        },
        CubeMask::TetradSlices | CubeMask::Whole => match f {
            Face::U => 0,
            Face::L => 1,
            Face::F => 2,
            Face::R => 3,
            Face::B => 4,
            Face::D => 5,
            Face::X => 0,
        },
    }
}

/// The coordinate over the first `i` state positions: centre positions are
/// skipped, the rest accumulate digits most significant first.
pub open spec fn spec_encode_upto(st: Seq<Face>, kind: CubeMask, i: int) -> int
    decreases i,
{
    if i <= 0 {
        0
    } else if (i - 1) % 9 == 4 {
        spec_encode_upto(st, kind, i - 1)
    } else {
        spec_encode_upto(st, kind, i - 1) * spec_base(kind) + spec_digit(kind, st[i - 1])
    }
}

/// The coordinate of a masked state of a 3x3x3 cube.
pub open spec fn spec_encode(st: Seq<Face>, kind: CubeMask) -> int {
    spec_encode_upto(st, kind, 54)
}

/// The base-six digit of a face label.
fn face_digit(f: Face) -> (r: u8)
    ensures
        r < 6,
        r as int == spec_digit(CubeMask::TetradSlices, f),
        r as int == spec_digit(CubeMask::Whole, f),
{
    match f {
        Face::U => 0,
        Face::L => 1,
        Face::F => 2,
        Face::R => 3,
        Face::B => 4,
        Face::D => 5,
        Face::X => 0,
    }
}

/// The base-three digit of a marker label.
fn marker_digit(f: Face) -> (r: u8)
    ensures
        r < 3,
        r as int == spec_digit(CubeMask::EdgeOrient, f),
        r as int == spec_digit(CubeMask::CornerEquator, f),
{
    match f {
        Face::U => 1,
        Face::F => 2,
        _ => 0,
    }
}

/// Forty-eight base-six digits stay within a 128-bit coordinate.
proof fn lemma_pow6_48_bound()
    ensures
        pow(6, 48) < 0x1_0000_0000_0000_0000_0000_0000_0000_0000,
{
    reveal_with_fuel(pow, 7);
    assert(pow(6, 6) == 46656);
    lemma_pow_adds(6, 6, 6);
    assert(pow(6, 12) == 46656 * 46656);
    lemma_pow_adds(6, 12, 12);
    assert(pow(6, 24) == 2176782336 * 2176782336);
    lemma_pow_adds(6, 24, 24);
    assert(pow(6, 48) == 4738381338321616896 * 4738381338321616896);
}

/// A compact coordinate for a masked state of a 3x3x3 cube.
///
/// Centre stickers never move under face turns and are skipped, leaving 48
/// digits. Marker masks show at most three labels and pack base three;
/// the other masks pack the base-six face digit, folding the blank label
/// onto one of them. The coordinate only keys the pruning table — goal
/// tests always compare full states — so the folding costs nothing but a
/// little pruning strength.
#[verifier::loop_isolation(false)]
pub fn encode_state(st: &Vec<Face>, kind: &CubeMask) -> (r: u128)
    requires
        st@.len() == 54,
    ensures
        r as int == spec_encode(st@, *kind),
{
    let base: u128 = match kind {
        CubeMask::EdgeOrient | CubeMask::CornerEquator => 3,
        CubeMask::TetradSlices | CubeMask::Whole => 6,
    };
    proof {
        lemma_pow6_48_bound();
        lemma_pow0(base as int);
        lemma_pow0(6);
    }
    let mut acc: u128 = 0;
    let ghost mut digits: nat = 0nat;
    let mut f: usize = 0;
    while f < 6
        invariant
            0 <= f <= 6,
            st@.len() == 54,
            3 <= base <= 6,
            base == spec_base(*kind),
            digits == 8 * f,
            acc < pow(base as int, digits),
            pow(base as int, digits) <= pow(6, digits),
            acc as int == spec_encode_upto(st@, *kind, 9 * f),
        decreases 6 - f,
    {
        let mut w: usize = 0;
        while w < 9
            invariant
                0 <= w <= 9,
                0 <= f < 6,
                st@.len() == 54,
                3 <= base <= 6,
                base == spec_base(*kind),
                digits == 8 * f + if w <= 4 {
                    w as int
                } else {
                    w - 1
                },
                acc < pow(base as int, digits),
                pow(base as int, digits) <= pow(6, digits),
                acc as int == spec_encode_upto(st@, *kind, 9 * f + w),
            decreases 9 - w,
        {
            if w != 4 {
                let face = st[f * 9 + w];
                let d: u8 = match kind {
                    CubeMask::EdgeOrient | CubeMask::CornerEquator => marker_digit(face),
                    CubeMask::TetradSlices | CubeMask::Whole => face_digit(face),
                };
                proof {
                    assert(digits <= 47);
                    lemma_pow_increases(6, digits, 47);
                    lemma_pow1(6);
                    lemma_pow1(base as int);
                    lemma_pow_adds(6, 1, 47);
                    assert(pow(6, 48) == 6 * pow(6, 47));
                    lemma_pow6_48_bound();
                    lemma_pow_adds(base as int, 1, digits);
                    assert(pow(base as int, (digits + 1) as nat) == base * pow(
                        base as int,
                        digits,
                    ));
                    lemma_pow_adds(6, 1, digits);
                    assert(pow(6, (digits + 1) as nat) == 6 * pow(6, digits));
                    assert(base * pow(base as int, digits) <= 6 * pow(6, digits))
                        by (nonlinear_arith)
                        requires
                            3 <= base <= 6,
                            0 < pow(base as int, digits) <= pow(6, digits),
                    ;
                    assert(6 * pow(6, digits) <= pow(6, 48)) by {
                        lemma_pow_increases(6, (digits + 1) as nat, 48);
                    }
                    assert(acc * base + d < base * pow(base as int, digits)) by (nonlinear_arith)
                        requires
                            acc < pow(base as int, digits),
                            (d as int) < base,
                            3 <= base,
                    ;
                }
                acc = acc * base + (d as u128);
                proof {
                    digits = digits + 1;
                    assert((9 * f + w) % 9 == w as int);
                    assert(acc as int == spec_encode_upto(st@, *kind, 9 * f + w + 1));
                }
            } else {
                proof {
                    assert((9 * f + w) % 9 == 4);
                    assert(acc as int == spec_encode_upto(st@, *kind, 9 * f + w + 1));
                }
            }
            w = w + 1;
        }
        f = f + 1;
    }
    acc
}


/// Every digit is below its mask's base.
proof fn lemma_digit_below_base(kind: CubeMask, f: Face)
    ensures
        0 <= spec_digit(kind, f) < spec_base(kind),
        3 <= spec_base(kind) <= 6,
{
}

/// How many digits the first `i` state positions contribute.
spec fn digit_count(i: int) -> nat
    decreases i,
{
    if i <= 0 {
        0
    } else if (i - 1) % 9 == 4 {
        digit_count(i - 1)
    } else {
        digit_count(i - 1) + 1
    }
}

/// A coordinate prefix stays below six to its digit count.
proof fn lemma_encode_upto_bound(st: Seq<Face>, kind: CubeMask, i: int)
    ensures
        0 <= spec_encode_upto(st, kind, i) < pow(6, digit_count(i)),
    decreases i,
{
    if i <= 0 {
        lemma_pow0(6);
    } else {
        lemma_encode_upto_bound(st, kind, i - 1);
        if (i - 1) % 9 != 4 {
            lemma_digit_below_base(kind, st[i - 1]);
            let a = spec_encode_upto(st, kind, i - 1);
            let b = spec_base(kind);
            let dd = spec_digit(kind, st[i - 1]);
            let pc = pow(6, digit_count(i - 1));
            lemma_pow_positive(6, digit_count(i - 1));
            lemma_pow_adds(6, 1, digit_count(i - 1));
            lemma_pow1(6);
            assert(pow(6, digit_count(i)) == 6 * pc);
            assert(0 <= a * b + dd < 6 * pc) by (nonlinear_arith)
                requires
                    0 <= a < pc,
                    0 <= dd < b,
                    3 <= b <= 6,
                    pc > 0,
            ;
        }
    }
}

/// Any state's coordinate fits a 128-bit key.
pub proof fn lemma_encode_in_range(st: Seq<Face>, kind: CubeMask)
    ensures
        0 <= spec_encode(st, kind) < 0x1_0000_0000_0000_0000_0000_0000_0000_0000,
{
    lemma_encode_upto_bound(st, kind, 54);
    assert(digit_count(54) == 48) by {
        reveal_with_fuel(digit_count, 55);
    }
    lemma_pow6_48_bound();
}

/// Equal coordinate prefixes pin the digit at every non-centre position.
proof fn lemma_encode_digits(s1: Seq<Face>, s2: Seq<Face>, kind: CubeMask, i: int)
    requires
        spec_encode_upto(s1, kind, i) == spec_encode_upto(s2, kind, i),
    ensures
        forall|j: int|
            0 <= j < i && j % 9 != 4 ==> spec_digit(kind, #[trigger] s1[j]) == spec_digit(
                kind,
                s2[j],
            ),
    decreases i,
{
    if i > 0 {
        if (i - 1) % 9 == 4 {
            lemma_encode_digits(s1, s2, kind, i - 1);
        } else {
            let b = spec_base(kind);
            let a1 = spec_encode_upto(s1, kind, i - 1);
            let a2 = spec_encode_upto(s2, kind, i - 1);
            let d1 = spec_digit(kind, s1[i - 1]);
            let d2 = spec_digit(kind, s2[i - 1]);
            lemma_encode_upto_bound(s1, kind, i - 1);
            lemma_encode_upto_bound(s2, kind, i - 1);
            lemma_digit_below_base(kind, s1[i - 1]);
            lemma_digit_below_base(kind, s2[i - 1]);
            let e = spec_encode_upto(s1, kind, i);
            assert(e == a1 * b + d1 && e == a2 * b + d2);
            vstd::arithmetic::div_mod::lemma_fundamental_div_mod_converse(e, b, a1, d1);
            vstd::arithmetic::div_mod::lemma_fundamental_div_mod_converse(e, b, a2, d2);
            assert(a1 == a2 && d1 == d2);
            lemma_encode_digits(s1, s2, kind, i - 1);
        }
    }
}

/// Equal digits at every non-centre position give equal coordinate
/// prefixes.
proof fn lemma_digits_encode(s1: Seq<Face>, s2: Seq<Face>, kind: CubeMask, i: int)
    requires
        forall|j: int|
            0 <= j < i && j % 9 != 4 ==> spec_digit(kind, #[trigger] s1[j]) == spec_digit(
                kind,
                s2[j],
            ),
    ensures
        spec_encode_upto(s1, kind, i) == spec_encode_upto(s2, kind, i),
    decreases i,
{
    if i > 0 {
        lemma_digits_encode(s1, s2, kind, i - 1);
    }
}

/// States with one coordinate keep one coordinate under any move: a move
/// permutes slots without touching labels, centre slots stay centre slots,
/// and a coordinate pins the digit at every non-centre slot.
pub proof fn lemma_encode_congruence(v1: CubeView, v2: CubeView, kind: CubeMask, mv: Move)
    requires
        view_wf(v1),
        view_wf(v2),
        v1.size == 3,
        v2.size == 3,
        spec_encode(view_faces(v1), kind) == spec_encode(view_faces(v2), kind),
    ensures
        spec_encode(view_faces(view_apply(v1, mv)), kind) == spec_encode(
            view_faces(view_apply(v2, mv)),
            kind,
        ),
{
    let s1 = view_faces(v1);
    let s2 = view_faces(v2);
    let t1 = view_faces(view_apply(v1, mv));
    let t2 = view_faces(view_apply(v2, mv));
    lemma_encode_digits(s1, s2, kind, 54);
    assert forall|j: int| 0 <= j < 54 && j % 9 != 4 implies spec_digit(kind, #[trigger] t1[j])
        == spec_digit(kind, t2[j]) by {
        lemma_slot_perm_valid(3, mv, j);
        lemma_slot_perm_center(mv, j);
        let pj = spec_slot_perm(3, mv, j);
        assert(view_apply(v1, mv).entries[j] == v1.entries[pj]);
        assert(view_apply(v2, mv).entries[j] == v2.entries[pj]);
        assert(t1[j] == s1[pj]);
        assert(t2[j] == s2[pj]);
        assert(spec_digit(kind, s1[pj]) == spec_digit(kind, s2[pj]));
    }
    lemma_digits_encode(t1, t2, kind, 54);
}

/// The congruence holds along whole move sequences.
pub proof fn lemma_encode_congruence_seq(v1: CubeView, v2: CubeView, kind: CubeMask, p: Seq<Move>)
    requires
        view_wf(v1),
        view_wf(v2),
        v1.size == 3,
        v2.size == 3,
        spec_encode(view_faces(v1), kind) == spec_encode(view_faces(v2), kind),
    ensures
        spec_encode(view_faces(view_apply_seq(v1, p)), kind) == spec_encode(
            view_faces(view_apply_seq(v2, p)),
            kind,
        ),
    decreases p.len(),
{
    if p.len() > 0 {
        lemma_encode_congruence(v1, v2, kind, p[0]);
        lemma_view_apply_wf(v1, p[0]);
        lemma_view_apply_wf(v2, p[0]);
        lemma_encode_congruence_seq(view_apply(v1, p[0]), view_apply(v2, p[0]), kind, p.drop_first());
    }
}

/// The 128-bit key of a state's coordinate.
pub open spec fn coord_of(v: CubeView, kind: CubeMask) -> u128 {
    spec_encode(view_faces(v), kind) as u128
}

/// The key a model reaches after a move sequence.
pub open spec fn coord_after(v: CubeView, p: Seq<Move>, kind: CubeMask) -> u128 {
    coord_of(view_apply_seq(v, p), kind)
}

/// The key loses nothing: the coordinate fits in it.
pub proof fn lemma_coord_of_key(v: CubeView, kind: CubeMask)
    ensures
        coord_of(v, kind) as int == spec_encode(view_faces(v), kind),
{
    lemma_encode_in_range(view_faces(v), kind);
}

/// Whether every move of a sequence is drawn from a move table.
pub open spec fn seq_from_table(mt: MoveTable, p: Seq<Move>) -> bool {
    forall|k: int|
        0 <= k < p.len() ==> exists|i: int|
            0 <= i < mt.move_count() && #[trigger] p[k] == mt.move_at(i)
}

/// Whether a model is reached from one of the seed cubes by exactly `d`
/// table moves.
pub open spec fn reached_from(seeds: Seq<FaceletCube>, mt: MoveTable, d: int, v: CubeView) -> bool {
    exists|i: int, p: Seq<Move>|
        #![trigger view_apply_seq(seeds[i].model(), p)]
        0 <= i < seeds.len() && seq_from_table(mt, p) && p.len() == d && view_apply_seq(
            seeds[i].model(),
            p,
        ) == v
}

/// Applying one more move continues the fold.
proof fn lemma_apply_push(v: CubeView, p: Seq<Move>, m: Move)
    ensures
        view_apply_seq(v, p.push(m)) == view_apply(view_apply_seq(v, p), m),
    decreases p.len(),
{
    let q = p.push(m);
    assert(q.len() == p.len() + 1);
    assert(view_apply_seq(v, q) == view_apply_seq(view_apply(v, q[0]), q.drop_first()));
    if p.len() == 0 {
        assert(q[0] == m);
        assert(q.drop_first() =~= Seq::<Move>::empty());
        assert(view_apply_seq(view_apply(v, m), q.drop_first()) == view_apply(v, m));
        assert(view_apply_seq(v, p) == v);
    } else {
        assert(q[0] == p[0]);
        assert(q.drop_first() =~= p.drop_first().push(m));
        assert(view_apply_seq(v, p) == view_apply_seq(view_apply(v, p[0]), p.drop_first()));
        lemma_apply_push(view_apply(v, p[0]), p.drop_first(), m);
    }
}

/// A table of distances over a phase's coordinate space, built by
/// breadth-first exploration from the phase's goal states under the phase's
/// legal moves, out to a fixed depth.
pub struct PruningTable {
    map: HashMap<u128, u8>,
    depth: u8,
}

impl PruningTable {
    /// The depth the breadth-first exploration was driven to.
    pub closed spec fn spec_depth(&self) -> int {
        self.depth as int
    }

    /// The recorded distances.
    pub closed spec fn spec_map(&self) -> Map<u128, u8> {
        self.map@
    }

    /// Every recorded distance is within the depth limit, and the limit
    /// leaves room for the one-past-the-limit lower bound.
    pub closed spec fn wf(&self) -> bool {
        self.depth <= 30 && forall|k: u128|
            self.spec_map().contains_key(k) ==> (#[trigger] self.spec_map()[k]) <= self.depth
    }

    /// Build the table: a breadth-first traversal from the goal states,
    /// expanding with the phase's legal move set only, recording for every
    /// newly discovered coordinate the depth at which it was first reached.
    ///
    /// The table covers the explored ball exactly: any state some sequence
    /// of at most `depth` table moves reaches from a seed has its coordinate
    /// recorded no deeper than that sequence's length, and every recorded
    /// distance is the length of a real path from a seed to a state with
    /// that coordinate.
    #[verifier::rlimit(100)]
    pub fn new(start: &Vec<FaceletCube>, depth: u8, mt: &MoveTable, kind: &CubeMask) -> (r: Self)
        requires
            mt.wf(),
            mt.spec_size() == 3,
            depth <= 30,
            forall|i: int|
                0 <= i < start@.len() ==> (#[trigger] start@[i]).wf() && start@[i].model().size
                    == 3,
        ensures
            r.wf(),
            r.spec_depth() == depth,
            forall|i: int|
                0 <= i < start@.len() ==> r.spec_map().contains_key(
                    spec_encode(view_faces((#[trigger] start@[i]).model()), *kind) as u128,
                ) && r.spec_map()[spec_encode(view_faces(start@[i].model()), *kind) as u128] == 0,
            forall|i: int, p: Seq<Move>|
                0 <= i < start@.len() && p.len() <= depth && seq_from_table(*mt, p)
                    ==> r.spec_map().contains_key(
                    #[trigger] coord_after(start@[i].model(), p, *kind),
                ) && r.spec_map()[coord_after(start@[i].model(), p, *kind)] <= p.len(),
            forall|k: u128|
                #[trigger] r.spec_map().contains_key(k) ==> exists|vv: CubeView|
                    reached_from(start@, *mt, r.spec_map()[k] as int, vv) && coord_of(vv, *kind)
                        == k,
    {
        let ghost skeys = Seq::new(
            start@.len(),
            |i: int| spec_encode(view_faces(start@[i].model()), *kind) as u128,
        );
        let mut map: HashMap<u128, u8> = HashMap::new();
        let mut frontier: Vec<FaceletCube> = Vec::new();
        let mut i: usize = 0;
        while i < start.len()
            invariant
                forall|j: int|
                    0 <= j < start@.len() ==> (#[trigger] start@[j]).wf() && start@[j].model().size
                        == 3,
                0 <= i <= start@.len(),
                skeys.len() == start@.len(),
                forall|j: int|
                    0 <= j < start@.len() ==> skeys[j] == spec_encode(
                        view_faces((#[trigger] start@[j]).model()),
                        *kind,
                    ) as u128,
                forall|k: u128| map@.contains_key(k) ==> (#[trigger] map@[k]) == 0,
                forall|j: int|
                    0 <= j < i ==> map@.contains_key(#[trigger] skeys[j]) && map@[skeys[j]] == 0,
                forall|j: int|
                    0 <= j < frontier@.len() ==> (#[trigger] frontier@[j]).wf()
                        && frontier@[j].model().size == 3,
                forall|j: int|
                    0 <= j < frontier@.len() ==> exists|i2: int|
                        0 <= i2 < start@.len() && (#[trigger] frontier@[j]).model()
                            == start@[i2].model(),
                forall|k: u128|
                    #[trigger] map@.contains_key(k) ==> exists|j: int|
                        0 <= j < frontier@.len() && coord_of(frontier@[j].model(), *kind) == k,
            decreases start@.len() - i,
        {
            let c = start[i].duplicate();
            let st = c.state();
            proof {
                c.wf_implies_view_wf();
                assert(st@.len() == 54);
            }
            let key = encode_state(&st, kind);
            proof {
                assert(key == skeys[i as int]);
                assert(key == coord_of(c.model(), *kind));
            }
            if !map.contains_key(&key) {
                map.insert(key, 0);
                let ghost oldf = frontier@;
                frontier.push(c);
                proof {
                    assert forall|k: u128| #[trigger] map@.contains_key(k) implies exists|j: int|
                        0 <= j < frontier@.len() && coord_of(frontier@[j].model(), *kind)
                            == k by {
                        if k == key {
                            assert(coord_of(frontier@[oldf.len() as int].model(), *kind) == k);
                        } else {
                            let j = choose|j: int|
                                0 <= j < oldf.len() && coord_of(oldf[j].model(), *kind) == k;
                            assert(coord_of(frontier@[j].model(), *kind) == k);
                        }
                    }
                }
            }
            i = i + 1;
        }
        proof {
            assert forall|i2: int, p: Seq<Move>|
                0 <= i2 < start@.len() && p.len() <= 0 && seq_from_table(
                    *mt,
                    p,
                ) implies map@.contains_key(
                #[trigger] coord_after(start@[i2].model(), p, *kind),
            ) && map@[coord_after(start@[i2].model(), p, *kind)] <= p.len() by {
                assert(view_apply_seq(start@[i2].model(), p) == start@[i2].model());
                assert(coord_after(start@[i2].model(), p, *kind) == skeys[i2]);
            }
            assert forall|j: int| 0 <= j < frontier@.len() implies reached_from(
                start@,
                *mt,
                0,
                (#[trigger] frontier@[j]).model(),
            ) by {
                let i2 = choose|i2: int|
                    0 <= i2 < start@.len() && frontier@[j].model() == start@[i2].model();
                let p = Seq::<Move>::empty();
                assert(seq_from_table(*mt, p));
                assert(view_apply_seq(start@[i2].model(), p) == frontier@[j].model());
            }
            assert forall|k: u128| #[trigger] map@.contains_key(k) implies exists|vv: CubeView|
                reached_from(start@, *mt, map@[k] as int, vv) && coord_of(vv, *kind) == k by {
                let j = choose|j: int|
                    0 <= j < frontier@.len() && coord_of(frontier@[j].model(), *kind) == k;
                assert(reached_from(start@, *mt, 0, frontier@[j].model()));
                assert(map@[k] == 0);
            }
        }
        let mut d: u8 = 0;
        while d < depth
            invariant
                mt.wf(),
                mt.spec_size() == 3,
                depth <= 30,
                0 <= d <= depth,
                skeys.len() == start@.len(),
                forall|j: int|
                    0 <= j < start@.len() ==> (#[trigger] start@[j]).wf() && start@[j].model().size
                        == 3,
                forall|j: int|
                    0 <= j < start@.len() ==> skeys[j] == spec_encode(
                        view_faces((#[trigger] start@[j]).model()),
                        *kind,
                    ) as u128,
                forall|k: u128| map@.contains_key(k) ==> (#[trigger] map@[k]) <= d,
                forall|j: int|
                    0 <= j < skeys.len() ==> map@.contains_key(#[trigger] skeys[j])
                        && map@[skeys[j]] == 0,
                forall|j: int|
                    0 <= j < frontier@.len() ==> (#[trigger] frontier@[j]).wf()
                        && frontier@[j].model().size == 3,
                forall|i2: int, p: Seq<Move>|
                    0 <= i2 < start@.len() && p.len() <= d && seq_from_table(*mt, p)
                        ==> map@.contains_key(
                        #[trigger] coord_after(start@[i2].model(), p, *kind),
                    ) && map@[coord_after(start@[i2].model(), p, *kind)] <= p.len(),
                forall|v: CubeView, mi2: int|
                    view_wf(v) && v.size == 3 && map@.contains_key(coord_of(v, *kind))
                        && map@[coord_of(v, *kind)] < d && 0 <= mi2 < mt.move_count()
                        ==> map@.contains_key(
                        #[trigger] coord_of(view_apply(v, mt.move_at(mi2)), *kind),
                    ) && map@[coord_of(view_apply(v, mt.move_at(mi2)), *kind)] <= map@[coord_of(
                        v,
                        *kind,
                    )] + 1,
                forall|k: u128|
                    map@.contains_key(k) && (#[trigger] map@[k]) == d ==> exists|j: int|
                        0 <= j < frontier@.len() && coord_of(frontier@[j].model(), *kind) == k,
                forall|j: int|
                    0 <= j < frontier@.len() ==> reached_from(
                        start@,
                        *mt,
                        d as int,
                        (#[trigger] frontier@[j]).model(),
                    ),
                forall|k: u128|
                    #[trigger] map@.contains_key(k) ==> exists|vv: CubeView|
                        reached_from(start@, *mt, map@[k] as int, vv) && coord_of(vv, *kind) == k,
            decreases depth - d,
        {
            let mut next: Vec<FaceletCube> = Vec::new();
            let mut fi: usize = 0;
            while fi < frontier.len()
                invariant
                    mt.wf(),
                    mt.spec_size() == 3,
                    depth <= 30,
                    0 <= d < depth,
                    0 <= fi <= frontier@.len(),
                    skeys.len() == start@.len(),
                    forall|j: int|
                        0 <= j < start@.len() ==> (#[trigger] start@[j]).wf()
                            && start@[j].model().size == 3,
                    forall|j: int|
                        0 <= j < start@.len() ==> skeys[j] == spec_encode(
                            view_faces((#[trigger] start@[j]).model()),
                            *kind,
                        ) as u128,
                    forall|k: u128| map@.contains_key(k) ==> (#[trigger] map@[k]) <= d + 1,
                    forall|j: int|
                        0 <= j < skeys.len() ==> map@.contains_key(#[trigger] skeys[j])
                            && map@[skeys[j]] == 0,
                    forall|j: int|
                        0 <= j < frontier@.len() ==> (#[trigger] frontier@[j]).wf()
                            && frontier@[j].model().size == 3,
                    forall|j: int|
                        0 <= j < next@.len() ==> (#[trigger] next@[j]).wf()
                            && next@[j].model().size == 3,
                    forall|i2: int, p: Seq<Move>|
                        0 <= i2 < start@.len() && p.len() <= d && seq_from_table(*mt, p)
                            ==> map@.contains_key(
                            #[trigger] coord_after(start@[i2].model(), p, *kind),
                        ) && map@[coord_after(start@[i2].model(), p, *kind)] <= p.len(),
                    forall|v: CubeView, mi2: int|
                        view_wf(v) && v.size == 3 && map@.contains_key(coord_of(v, *kind))
                            && map@[coord_of(v, *kind)] < d && 0 <= mi2 < mt.move_count()
                            ==> map@.contains_key(
                            #[trigger] coord_of(view_apply(v, mt.move_at(mi2)), *kind),
                        ) && map@[coord_of(view_apply(v, mt.move_at(mi2)), *kind)] <= map@[coord_of(
                            v,
                            *kind,
                        )] + 1,
                    forall|k: u128|
                        map@.contains_key(k) && (#[trigger] map@[k]) == d ==> exists|j: int|
                            0 <= j < frontier@.len() && coord_of(frontier@[j].model(), *kind) == k,
                    forall|j: int|
                        0 <= j < frontier@.len() ==> reached_from(
                            start@,
                            *mt,
                            d as int,
                            (#[trigger] frontier@[j]).model(),
                        ),
                    forall|k: u128|
                        #[trigger] map@.contains_key(k) ==> exists|vv: CubeView|
                            reached_from(start@, *mt, map@[k] as int, vv) && coord_of(vv, *kind)
                                == k,
                    forall|j: int, mi2: int|
                        0 <= j < fi && 0 <= mi2 < mt.move_count() ==> map@.contains_key(
                            #[trigger] coord_of(
                                view_apply(frontier@[j].model(), mt.move_at(mi2)),
                                *kind,
                            ),
                        ) && map@[coord_of(view_apply(frontier@[j].model(), mt.move_at(mi2)), *kind)]
                            <= d + 1,
                    forall|j: int|
                        0 <= j < next@.len() ==> reached_from(
                            start@,
                            *mt,
                            d + 1,
                            (#[trigger] next@[j]).model(),
                        ),
                    forall|k: u128|
                        map@.contains_key(k) && (#[trigger] map@[k]) == d + 1 ==> exists|j: int|
                            0 <= j < next@.len() && coord_of(next@[j].model(), *kind) == k,
                decreases frontier@.len() - fi,
            {
                let mtl = mt.len();
                let mut mi: usize = 0;
                while mi < mtl
                    invariant
                        mt.wf(),
                        mt.spec_size() == 3,
                        depth <= 30,
                        0 <= d < depth,
                        0 <= fi < frontier@.len(),
                        mtl as int == mt.move_count(),
                        0 <= mi <= mtl,
                        skeys.len() == start@.len(),
                        forall|j: int|
                            0 <= j < start@.len() ==> (#[trigger] start@[j]).wf()
                                && start@[j].model().size == 3,
                        forall|j: int|
                            0 <= j < start@.len() ==> skeys[j] == spec_encode(
                                view_faces((#[trigger] start@[j]).model()),
                                *kind,
                            ) as u128,
                        forall|k: u128| map@.contains_key(k) ==> (#[trigger] map@[k]) <= d + 1,
                        forall|j: int|
                            0 <= j < skeys.len() ==> map@.contains_key(#[trigger] skeys[j])
                                && map@[skeys[j]] == 0,
                        forall|j: int|
                            0 <= j < frontier@.len() ==> (#[trigger] frontier@[j]).wf()
                                && frontier@[j].model().size == 3,
                        forall|j: int|
                            0 <= j < next@.len() ==> (#[trigger] next@[j]).wf()
                                && next@[j].model().size == 3,
                        forall|i2: int, p: Seq<Move>|
                            0 <= i2 < start@.len() && p.len() <= d && seq_from_table(*mt, p)
                                ==> map@.contains_key(
                                #[trigger] coord_after(start@[i2].model(), p, *kind),
                            ) && map@[coord_after(start@[i2].model(), p, *kind)] <= p.len(),
                        forall|v: CubeView, mi2: int|
                            view_wf(v) && v.size == 3 && map@.contains_key(coord_of(v, *kind))
                                && map@[coord_of(v, *kind)] < d && 0 <= mi2 < mt.move_count()
                                ==> map@.contains_key(
                                #[trigger] coord_of(view_apply(v, mt.move_at(mi2)), *kind),
                            ) && map@[coord_of(view_apply(v, mt.move_at(mi2)), *kind)]
                                <= map@[coord_of(v, *kind)] + 1,
                        forall|k: u128|
                            map@.contains_key(k) && (#[trigger] map@[k]) == d ==> exists|j: int|
                                0 <= j < frontier@.len() && coord_of(frontier@[j].model(), *kind)
                                    == k,
                        forall|j: int|
                            0 <= j < frontier@.len() ==> reached_from(
                                start@,
                                *mt,
                                d as int,
                                (#[trigger] frontier@[j]).model(),
                            ),
                        forall|k: u128|
                            #[trigger] map@.contains_key(k) ==> exists|vv: CubeView|
                                reached_from(start@, *mt, map@[k] as int, vv) && coord_of(
                                    vv,
                                    *kind,
                                ) == k,
                        forall|j: int, mi2: int|
                            0 <= j < fi && 0 <= mi2 < mt.move_count() ==> map@.contains_key(
                                #[trigger] coord_of(
                                    view_apply(frontier@[j].model(), mt.move_at(mi2)),
                                    *kind,
                                ),
                            ) && map@[coord_of(
                                view_apply(frontier@[j].model(), mt.move_at(mi2)),
                                *kind,
                            )] <= d + 1,
                        forall|mi2: int|
                            0 <= mi2 < mi ==> map@.contains_key(
                                #[trigger] coord_of(
                                    view_apply(frontier@[fi as int].model(), mt.move_at(mi2)),
                                    *kind,
                                ),
                            ) && map@[coord_of(
                                view_apply(frontier@[fi as int].model(), mt.move_at(mi2)),
                                *kind,
                            )] <= d + 1,
                        forall|j: int|
                            0 <= j < next@.len() ==> reached_from(
                                start@,
                                *mt,
                                d + 1,
                                (#[trigger] next@[j]).model(),
                            ),
                        forall|k: u128|
                            map@.contains_key(k) && (#[trigger] map@[k]) == d + 1 ==> exists|
                                j: int,
                            |
                                0 <= j < next@.len() && coord_of(next@[j].model(), *kind) == k,
                    decreases mtl - mi,
                {
                    let nc = frontier[fi].apply_via(mt, mi);
                    let st = nc.state();
                    proof {
                        nc.wf_implies_view_wf();
                        assert(st@.len() == 54);
                    }
                    let key = encode_state(&st, kind);
                    proof {
                        assert(key == coord_of(nc.model(), *kind));
                        assert(reached_from(start@, *mt, d + 1, nc.model())) by {
                            let (i2, p) = choose|i2: int, p: Seq<Move>|
                                #![trigger view_apply_seq(start@[i2].model(), p)]
                                0 <= i2 < start@.len() && seq_from_table(*mt, p) && p.len()
                                    == d as int && view_apply_seq(start@[i2].model(), p)
                                    == frontier@[fi as int].model();
                            let p2 = p.push(mt.move_at(mi as int));
                            lemma_apply_push(start@[i2].model(), p, mt.move_at(mi as int));
                            assert(seq_from_table(*mt, p2)) by {
                                assert forall|k2: int| 0 <= k2 < p2.len() implies exists|ii: int|
                                    0 <= ii < mt.move_count() && #[trigger] p2[k2] == mt.move_at(
                                    ii,
                                ) by {
                                    if k2 < p.len() {
                                        assert(p2[k2] == p[k2]);
                                    } else {
                                        assert(p2[k2] == mt.move_at(mi as int));
                                    }
                                }
                            }
                            assert(view_apply_seq(start@[i2].model(), p2) == nc.model());
                        }
                    }
                    if !map.contains_key(&key) {
                        map.insert(key, d + 1);
                        let ghost oldn = next@;
                        next.push(nc);
                        proof {
                            assert(coord_of(next@[oldn.len() as int].model(), *kind) == key);
                            assert forall|k: u128|
                                map@.contains_key(k) && (#[trigger] map@[k]) == d + 1 implies exists|
                                j: int,
                            |
                                0 <= j < next@.len() && coord_of(next@[j].model(), *kind) == k by {
                                if k == key {
                                    assert(coord_of(next@[oldn.len() as int].model(), *kind) == k);
                                } else {
                                    let j = choose|j: int|
                                        0 <= j < oldn.len() && coord_of(oldn[j].model(), *kind)
                                            == k;
                                    assert(coord_of(next@[j].model(), *kind) == k);
                                }
                            }
                            assert forall|k: u128| #[trigger] map@.contains_key(k) implies exists|
                                vv: CubeView,
                            |
                                reached_from(start@, *mt, map@[k] as int, vv) && coord_of(
                                    vv,
                                    *kind,
                                ) == k by {
                                if k == key {
                                    assert(reached_from(start@, *mt, map@[k] as int, nc.model())
                                        && coord_of(nc.model(), *kind) == k);
                                }
                            }
                        }
                    }
                    mi = mi + 1;
                }
                fi = fi + 1;
            }
            proof {
                // every key at or below the current level now has all its
                // successors recorded one level deeper at most
                assert forall|v: CubeView, mi2: int|
                    view_wf(v) && v.size == 3 && map@.contains_key(coord_of(v, *kind))
                        && map@[coord_of(v, *kind)] < d + 1 && 0 <= mi2
                        < mt.move_count() implies map@.contains_key(
                    #[trigger] coord_of(view_apply(v, mt.move_at(mi2)), *kind),
                ) && map@[coord_of(view_apply(v, mt.move_at(mi2)), *kind)] <= map@[coord_of(
                    v,
                    *kind,
                )] + 1 by {
                    let k = coord_of(v, *kind);
                    if map@[k] < d {
                    } else {
                        let j = choose|j: int|
                            0 <= j < frontier@.len() && coord_of(frontier@[j].model(), *kind) == k;
                        frontier@[j].wf_implies_view_wf();
                        lemma_coord_of_key(v, *kind);
                        lemma_coord_of_key(frontier@[j].model(), *kind);
                        assert(spec_encode(view_faces(frontier@[j].model()), *kind) == spec_encode(
                            view_faces(v),
                            *kind,
                        ));
                        lemma_encode_congruence(frontier@[j].model(), v, *kind, mt.move_at(mi2));
                        assert(map@.contains_key(
                            coord_of(view_apply(frontier@[j].model(), mt.move_at(mi2)), *kind),
                        ));
                        assert(coord_of(view_apply(v, mt.move_at(mi2)), *kind) == coord_of(
                            view_apply(frontier@[j].model(), mt.move_at(mi2)),
                            *kind,
                        ));
                    }
                }
                // the covered ball grows by one level
                assert forall|i2: int, p: Seq<Move>|
                    0 <= i2 < start@.len() && p.len() <= d + 1 && seq_from_table(
                        *mt,
                        p,
                    ) implies map@.contains_key(
                    #[trigger] coord_after(start@[i2].model(), p, *kind),
                ) && map@[coord_after(start@[i2].model(), p, *kind)] <= p.len() by {
                    if p.len() > d {
                        let q = p.drop_last();
                        let m = p.last();
                        assert(p =~= q.push(m));
                        lemma_apply_push(start@[i2].model(), q, m);
                        assert(seq_from_table(*mt, q)) by {
                            assert forall|k2: int| 0 <= k2 < q.len() implies exists|ii: int|
                                0 <= ii < mt.move_count() && #[trigger] q[k2] == mt.move_at(
                                ii,
                            ) by {
                                assert(q[k2] == p[k2]);
                            }
                        }
                        let wq = view_apply_seq(start@[i2].model(), q);
                        start@[i2].wf_implies_view_wf();
                        lemma_view_apply_seq_wf(start@[i2].model(), q);
                        assert(map@.contains_key(coord_of(wq, *kind)) && map@[coord_of(wq, *kind)]
                            <= q.len()) by {
                            assert(coord_after(start@[i2].model(), q, *kind) == coord_of(
                                wq,
                                *kind,
                            ));
                        }
                        let mi2 = choose|ii: int|
                            0 <= ii < mt.move_count() && #[trigger] p[p.len() - 1] == mt.move_at(
                            ii,
                        );
                        assert(m == mt.move_at(mi2));
                        assert(map@.contains_key(coord_of(view_apply(wq, mt.move_at(mi2)), *kind))
                            && map@[coord_of(view_apply(wq, mt.move_at(mi2)), *kind)]
                            <= map@[coord_of(wq, *kind)] + 1);
                        assert(coord_after(start@[i2].model(), p, *kind) == coord_of(
                            view_apply(wq, m),
                            *kind,
                        ));
                    }
                }
            }
            frontier = next;
            d = d + 1;
        }
        PruningTable { map, depth }
    }

    /// How many coordinates the table has recorded.
    pub fn len(&self) -> (r: usize)
        ensures
            r as nat == self.spec_map().dom().len(),
    {
        self.map.len()
    }

    /// The table never overestimates: a state from which some sequence of
    /// table moves reaches a goal state either has its coordinate recorded
    /// no deeper than that sequence's length, or the sequence is longer
    /// than the exploration depth.
    pub open spec fn admissible(&self, mt: MoveTable, goals: Seq<Seq<Face>>, kind: CubeMask) -> bool {
        forall|v: CubeView, q: Seq<Move>, g: int|
            #![trigger view_apply_seq(v, q), goals[g]]
            view_wf(v) && v.size == 3 && seq_from_table(mt, q) && 0 <= g < goals.len()
                && view_faces(view_apply_seq(v, q)) == goals[g] ==> q.len() > self.spec_depth()
                || (self.spec_map().contains_key(coord_of(v, kind)) && self.spec_map()[coord_of(
                v,
                kind,
            )] <= q.len())
    }

    /// The search's lower-bound estimate for a coordinate: its recorded
    /// distance, or one past the exploration depth when none was recorded.
    pub fn min_moves(&self, key: u128) -> (r: u8)
        requires
            self.wf(),
        ensures
            r as int <= self.spec_depth() + 1,
            self.spec_map().contains_key(key) ==> r == self.spec_map()[key],
            !self.spec_map().contains_key(key) ==> r as int == self.spec_depth() + 1,
    {
        let got = self.map.get(&key);
        match got {
            Some(v) => {
                proof {
                    assert(self.spec_map().contains_key(key) && *v == self.spec_map()[key]);
                }
                *v
            },
            None => self.depth + 1,
        }
    }
}

/// A table whose coverage reaches the exploration depth is admissible for
/// the search towards its seed states, provided the move set is closed
/// under inverses: a legal path from a state to a goal, inverted and
/// reversed, walks from the matching seed back to the state's coordinate.
pub proof fn lemma_table_admissible(
    tbl: &PruningTable,
    mt: MoveTable,
    goals: Seq<Seq<Face>>,
    kind: CubeMask,
    seeds: Seq<FaceletCube>,
)
    requires
        forall|i: int|
            0 <= i < seeds.len() ==> view_wf((#[trigger] seeds[i]).model())
                && seeds[i].model().size == 3,
        goals.len() == seeds.len(),
        forall|g: int| 0 <= g < goals.len() ==> #[trigger] goals[g] == view_faces(seeds[g].model()),
        forall|i: int, p: Seq<Move>|
            0 <= i < seeds.len() && p.len() <= tbl.spec_depth() && seq_from_table(mt, p)
                ==> tbl.spec_map().contains_key(
                #[trigger] coord_after(seeds[i].model(), p, kind),
            ) && tbl.spec_map()[coord_after(seeds[i].model(), p, kind)] <= p.len(),
        forall|i: int|
            0 <= i < mt.move_count() ==> exists|j: int|
                0 <= j < mt.move_count() && mt.move_at(j) == (#[trigger] mt.move_at(
                    i,
                )).spec_inverse(),
    ensures
        tbl.admissible(mt, goals, kind),
{
    assert forall|v: CubeView, q: Seq<Move>, g: int|
        #![trigger view_apply_seq(v, q), goals[g]]
        view_wf(v) && v.size == 3 && seq_from_table(mt, q) && 0 <= g < goals.len() && view_faces(
            view_apply_seq(v, q),
        ) == goals[g] implies q.len() > tbl.spec_depth() || (tbl.spec_map().contains_key(
        coord_of(v, kind),
    ) && tbl.spec_map()[coord_of(v, kind)] <= q.len()) by {
        if q.len() <= tbl.spec_depth() {
            let w = view_apply_seq(v, q);
            lemma_view_apply_seq_wf(v, q);
            let iq = spec_inverse_sequence(q);
            assert(iq.len() == q.len());
            assert(seq_from_table(mt, iq)) by {
                assert forall|k: int| 0 <= k < iq.len() implies exists|ii: int|
                    0 <= ii < mt.move_count() && #[trigger] iq[k] == mt.move_at(ii) by {
                    assert(iq[k] == q[q.len() - 1 - k].spec_inverse());
                    let i0 = choose|i0: int|
                        0 <= i0 < mt.move_count() && #[trigger] q[q.len() - 1 - k] == mt.move_at(
                        i0,
                        );
                    let j0 = choose|j0: int|
                        0 <= j0 < mt.move_count() && mt.move_at(j0) == mt.move_at(
                            i0,
                        ).spec_inverse();
                    assert(iq[k] == mt.move_at(j0));
                }
            }
            lemma_round_trip(v, q);
            assert(view_apply_seq(w, iq) == v);
            assert(view_faces(seeds[g].model()) == view_faces(w));
            lemma_encode_congruence_seq(seeds[g].model(), w, kind, iq);
            assert(coord_after(seeds[g].model(), iq, kind) == coord_of(v, kind));
            assert(tbl.spec_map().contains_key(coord_after(seeds[g].model(), iq, kind))
                && tbl.spec_map()[coord_after(seeds[g].model(), iq, kind)] <= iq.len());
        }
    }
}

/// One phase's solver: iterative-deepening search within the phase's legal
/// move set, guided by the phase's pruning table, towards the phase's goal
/// states.
pub struct Solver {
    moves: MoveTable,
    pruning: PruningTable,
    goals: Vec<Vec<Face>>,
    kind: CubeMask,
    max_depth: u8,
}

impl Solver {
    /// The goal states: a solution must land the cube on one of them.
    pub closed spec fn spec_goals(&self) -> Seq<Seq<Face>> {
        self.goals@.map_values(|g: Vec<Face>| g@)
    }

    /// How many legal moves the phase has.
    pub closed spec fn move_count(&self) -> int {
        self.moves.move_count()
    }

    /// The phase's legal move number `i`.
    pub closed spec fn spec_move_at(&self, i: int) -> Move {
        self.moves.move_at(i)
    }

    /// The deepest search the phase will attempt.
    pub closed spec fn spec_max_depth(&self) -> int {
        self.max_depth as int
    }

    /// The solver's tables fit together, and the pruning table never
    /// overestimates the distance to the goal states.
    pub closed spec fn wf(&self) -> bool {
        &&& self.moves.wf()
        &&& self.moves.spec_size() == 3
        &&& self.pruning.wf()
        &&& self.pruning.admissible(self.moves, self.spec_goals(), self.kind)
    }

    /// Whether a state is one of the phase's goal states.
    pub open spec fn spec_is_goal(&self, st: Seq<Face>) -> bool {
        exists|g: int| 0 <= g < self.spec_goals().len() && st == self.spec_goals()[g]
    }

    /// Whether every move of a sequence is drawn from the phase's move set.
    pub open spec fn spec_from_moves(&self, q: Seq<Move>) -> bool {
        forall|k: int|
            0 <= k < q.len() ==> exists|i: int|
                0 <= i < self.move_count() && #[trigger] q[k] == self.spec_move_at(i)
    }

    /// Assemble a phase solver from its tables, goal states and mask.
    pub fn new(
        moves: MoveTable,
        pruning: PruningTable,
        goals: Vec<Vec<Face>>,
        kind: CubeMask,
        max_depth: u8,
    ) -> (r: Self)
        requires
            moves.wf(),
            moves.spec_size() == 3,
            pruning.wf(),
            pruning.admissible(moves, goals@.map_values(|g: Vec<Face>| g@), kind),
        ensures
            r.wf(),
            r.spec_goals() == goals@.map_values(|g: Vec<Face>| g@),
            r.move_count() == moves.move_count(),
            forall|i: int| 0 <= i < moves.move_count() ==> r.spec_move_at(i) == moves.move_at(i),
            r.spec_max_depth() == max_depth as int,
    {
        Solver { moves, pruning, goals, kind, max_depth }
    }

    /// Whether a state is one of the phase's goal states.
    fn is_goal(&self, st: &Vec<Face>) -> (r: bool)
        ensures
            r == exists|g: int| 0 <= g < self.spec_goals().len() && st@ == self.spec_goals()[g],
    {
        let mut g: usize = 0;
        while g < self.goals.len()
            invariant
                0 <= g <= self.goals@.len(),
                forall|j: int| 0 <= j < g ==> st@ != self.spec_goals()[j],
            decreases self.goals@.len() - g,
        {
            if states_equal(st, &self.goals[g]) {
                proof {
                    assert(st@ == self.spec_goals()[g as int]);
                }
                return true;
            }
            g = g + 1;
        }
        false
    }

    /// Depth-first search for a goal within a move budget, pruning branches
    /// the table proves too deep.
    ///
    /// `None` is a verdict, not a shrug: no sequence of at most `budget`
    /// moves from the phase's move set reaches a goal state.
    fn dfs(&self, c: &FaceletCube, budget: u8) -> (r: Option<Vec<Move>>)
        requires
            self.wf(),
            c.wf(),
            c.model().size == 3,
        ensures
            r matches Some(p) ==> {
                &&& p@.len() <= budget
                &&& forall|k: int|
                    0 <= k < p@.len() ==> exists|i: int|
                        0 <= i < self.move_count() && #[trigger] p@[k] == self.spec_move_at(i)
                &&& exists|g: int|
                    0 <= g < self.spec_goals().len() && view_faces(
                        view_apply_seq(c.model(), p@),
                    ) == self.spec_goals()[g]
            },
            self.spec_is_goal(view_faces(c.model())) ==> (r matches Some(p) && p@.len() == 0),
            r is None ==> forall|q: Seq<Move>|
                #![trigger view_apply_seq(c.model(), q)]
                self.spec_from_moves(q) && q.len() <= budget ==> !self.spec_is_goal(
                    view_faces(view_apply_seq(c.model(), q)),
                ),
        decreases budget,
    {
        let st = c.state();
        if self.is_goal(&st) {
            let out: Vec<Move> = Vec::new();
            proof {
                assert(view_apply_seq(c.model(), out@) == c.model());
            }
            return Some(out);
        }
        if budget == 0 {
            proof {
                assert forall|q: Seq<Move>|
                    self.spec_from_moves(q) && q.len() <= budget implies !self.spec_is_goal(
                    view_faces(view_apply_seq(c.model(), q)),
                ) by {
                    assert(view_apply_seq(c.model(), q) == c.model());
                }
            }
            return None;
        }
        proof {
            c.wf_implies_view_wf();
            assert(st@.len() == 54);
        }
        let key = encode_state(&st, &self.kind);
        let h = self.pruning.min_moves(key);
        if h > budget {
            proof {
                lemma_coord_of_key(c.model(), self.kind);
                assert(key == coord_of(c.model(), self.kind));
                assert forall|q: Seq<Move>|
                    self.spec_from_moves(q) && q.len() <= budget implies !self.spec_is_goal(
                    view_faces(view_apply_seq(c.model(), q)),
                ) by {
                    if self.spec_is_goal(view_faces(view_apply_seq(c.model(), q))) {
                        let g = choose|g: int|
                            0 <= g < self.spec_goals().len() && view_faces(
                                view_apply_seq(c.model(), q),
                            ) == self.spec_goals()[g];
                        assert(seq_from_table(self.moves, q)) by {
                            assert forall|k: int| 0 <= k < q.len() implies exists|ii: int|
                                0 <= ii < self.moves.move_count() && #[trigger] q[k]
                                    == self.moves.move_at(ii) by {
                                let ii = choose|ii: int|
                                    0 <= ii < self.move_count() && q[k] == self.spec_move_at(ii);
                                assert(q[k] == self.moves.move_at(ii));
                            }
                        }
                        assert(view_faces(view_apply_seq(c.model(), q)) == self.spec_goals()[g]);
                        assert(q.len() > self.pruning.spec_depth() || (
                        self.pruning.spec_map().contains_key(coord_of(c.model(), self.kind))
                            && self.pruning.spec_map()[coord_of(c.model(), self.kind)]
                            <= q.len()));
                        assert(h as int <= q.len());
                        assert(false);
                    }
                }
            }
            return None;
        }
        let ml = self.moves.len();
        let mut mi: usize = 0;
        while mi < ml
            invariant
                self.wf(),
                c.wf(),
                c.model().size == 3,
                budget >= 1,
                !self.spec_is_goal(view_faces(c.model())),
                ml as int == self.move_count(),
                0 <= mi <= ml,
                forall|q: Seq<Move>|
                    #![trigger view_apply_seq(c.model(), q)]
                    self.spec_from_moves(q) && 1 <= q.len() <= budget && (exists|i2: int|
                        0 <= i2 < mi && q[0] == self.spec_move_at(i2)) ==> !self.spec_is_goal(
                        view_faces(view_apply_seq(c.model(), q)),
                    ),
            decreases ml - mi,
        {
            let nc = c.apply_via(&self.moves, mi);
            let sub = self.dfs(&nc, budget - 1);
            match sub {
                Some(tail) => {
                    let mv = self.moves.move_of(mi);
                    let mut out: Vec<Move> = Vec::new();
                    out.push(mv);
                    let mut t: usize = 0;
                    while t < tail.len()
                        invariant
                            0 <= t <= tail@.len(),
                            out@ =~= seq![mv] + tail@.take(t as int),
                        decreases tail@.len() - t,
                    {
                        out.push(tail[t]);
                        proof {
                            assert(out@ =~= seq![mv] + tail@.take(t + 1));
                        }
                        t = t + 1;
                    }
                    proof {
                        assert(tail@.take(tail@.len() as int) =~= tail@);
                        assert(out@ =~= seq![mv] + tail@);
                        let whole = seq![mv] + tail@;
                        assert(whole[0] == mv);
                        assert(whole.drop_first() =~= tail@);
                        assert(view_apply_seq(c.model(), whole) == view_apply_seq(
                            view_apply(c.model(), mv),
                            tail@,
                        ));
                        assert(nc.model() == view_apply(c.model(), mv));
                        assert forall|k: int| 0 <= k < out@.len() implies exists|i2: int|
                            0 <= i2 < self.move_count() && #[trigger] out@[k] == self.spec_move_at(
                            i2,
                        ) by {
                            if k == 0 {
                                assert(out@[0] == self.spec_move_at(mi as int));
                            } else {
                                let i2 = choose|i2: int|
                                    0 <= i2 < self.move_count() && tail@[k - 1]
                                        == self.spec_move_at(i2);
                                assert(out@[k] == self.spec_move_at(i2));
                            }
                        }
                    }
                    return Some(out);
                },
                None => {
                    proof {
                        assert forall|q: Seq<Move>|
                            self.spec_from_moves(q) && 1 <= q.len() <= budget && (exists|i2: int|
                                0 <= i2 < mi + 1 && q[0] == self.spec_move_at(
                                    i2,
                                )) implies !self.spec_is_goal(
                            view_faces(view_apply_seq(c.model(), q)),
                        ) by {
                            let i2 = choose|i2: int|
                                0 <= i2 < mi + 1 && q[0] == self.spec_move_at(i2);
                            if i2 < mi {
                                assert(exists|i3: int|
                                    0 <= i3 < mi && q[0] == self.spec_move_at(i3));
                            } else {
                                let tail = q.drop_first();
                                assert(view_apply_seq(c.model(), q) == view_apply_seq(
                                    view_apply(c.model(), q[0]),
                                    tail,
                                ));
                                assert(nc.model() == view_apply(c.model(), q[0]));
                                assert(self.spec_from_moves(tail)) by {
                                    assert forall|k: int| 0 <= k < tail.len() implies exists|
                                        ii: int,
                                    |
                                        0 <= ii < self.move_count() && #[trigger] tail[k]
                                            == self.spec_move_at(ii) by {
                                        assert(tail[k] == q[k + 1]);
                                    }
                                }
                                assert(tail.len() <= budget - 1);
                                assert(!self.spec_is_goal(
                                    view_faces(view_apply_seq(nc.model(), tail)),
                                ));
                            }
                        }
                    }
                },
            }
            mi = mi + 1;
        }
        proof {
            assert forall|q: Seq<Move>|
                self.spec_from_moves(q) && q.len() <= budget implies !self.spec_is_goal(
                view_faces(view_apply_seq(c.model(), q)),
            ) by {
                if q.len() == 0 {
                    assert(view_apply_seq(c.model(), q) == c.model());
                } else {
                    assert(exists|i2: int|
                        0 <= i2 < self.move_count() && q[0] == self.spec_move_at(i2));
                }
            }
        }
        None
    }

    /// Iterative deepening: try depth bounds `0, 1, ..` up to the phase's
    /// maximum, returning the first solution found.
    ///
    /// A returned sequence uses only the phase's legal moves, lands the
    /// cube on one of the phase's goal states, and no shorter legal
    /// sequence does; `None` means no legal sequence within the maximum
    /// depth reaches a goal state.
    pub fn solve(&self, cube: &FaceletCube) -> (r: Option<Vec<Move>>)
        requires
            self.wf(),
            cube.wf(),
            cube.model().size == 3,
            self.spec_max_depth() < 255,
        ensures
            r matches Some(p) ==> {
                &&& p@.len() <= self.spec_max_depth()
                &&& forall|k: int|
                    0 <= k < p@.len() ==> exists|i: int|
                        0 <= i < self.move_count() && #[trigger] p@[k] == self.spec_move_at(i)
                &&& exists|g: int|
                    0 <= g < self.spec_goals().len() && view_faces(
                        view_apply_seq(cube.model(), p@),
                    ) == self.spec_goals()[g]
            },
            self.spec_is_goal(view_faces(cube.model())) ==> (r matches Some(p) && p@.len() == 0),
            r is None ==> forall|q: Seq<Move>|
                #![trigger view_apply_seq(cube.model(), q)]
                self.spec_from_moves(q) && q.len() <= self.spec_max_depth()
                    ==> !self.spec_is_goal(view_faces(view_apply_seq(cube.model(), q))),
            r matches Some(p) ==> forall|q: Seq<Move>|
                #![trigger view_apply_seq(cube.model(), q)]
                self.spec_from_moves(q) && q.len() < p@.len() ==> !self.spec_is_goal(
                    view_faces(view_apply_seq(cube.model(), q)),
                ),
    {
        let mut bound: u8 = 0;
        while bound <= self.max_depth
            invariant
                self.wf(),
                cube.wf(),
                cube.model().size == 3,
                self.spec_max_depth() < 255,
                bound <= self.max_depth + 1,
                bound > 0 ==> !self.spec_is_goal(view_faces(cube.model())),
                forall|q: Seq<Move>|
                    #![trigger view_apply_seq(cube.model(), q)]
                    self.spec_from_moves(q) && q.len() < bound ==> !self.spec_is_goal(
                        view_faces(view_apply_seq(cube.model(), q)),
                    ),
            decreases self.max_depth + 1 - bound,
        {
            let found = self.dfs(cube, bound);
            match found {
                Some(p) => {
                    return Some(p);
                },
                None => {},
            }
            bound = bound + 1;
        }
        None
    }
}

} // verus!
