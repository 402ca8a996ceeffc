//! The geometric cube: every sticker carries the 3D integer coordinates of
//! its centroid, and a move rotates the coordinates of the stickers whose
//! layer it grabs.
//!
//! For a cube of side `n`, sticker centroids have exactly one coordinate
//! equal to `n` or `-n` (naming the face the sticker sits on) while the
//! other two range over `-(n-1), -(n-3), .., n-1`. A quarter turn about a
//! principal axis maps this surface bijectively onto itself, which is what
//! makes the geometric cube a sound ground truth for deriving the facelet
//! cube's index permutations.

use vstd::prelude::*;

use crate::generic_cube::{
    check_solved_state, ordered_face, solved_view, valid_size, variant_of_turns, variant_turns,
    view_apply, view_apply_seq, view_faces, lemma_view_apply_seq_snoc, Cube, CubeSize, CubeView,
    Face, Move, MoveVariant, ORDERED_FACES,
};

verus! {

/// A sticker centroid position.
#[derive(Clone, Copy, Debug, Eq, Hash, PartialEq, Structural)]
pub struct Coord {
    pub x: i32,
    pub y: i32,
    pub z: i32,
}

/// A principal axis of the cube.
#[derive(Clone, Copy, Debug, Eq, Hash, PartialEq, Structural)]
pub enum Axis {
    /// Towards the right face.
    X,
    /// Towards the upper face.
    Y,
    /// Towards the front face.
    Z,
}

/// An interior coordinate: strictly between the two opposite faces, with
/// the parity of a sticker centroid.
pub open spec fn inner_coord(n: int, v: int) -> bool {
    -n < v < n && (v + n) % 2 == 1
}

/// A sticker centroid: exactly one coordinate sits on a face.
pub open spec fn on_surface(n: int, p: Coord) -> bool {
    ||| ((p.x == n || p.x == -n) && inner_coord(n, p.y as int) && inner_coord(n, p.z as int))
    ||| (inner_coord(n, p.x as int) && (p.y == n || p.y == -n) && inner_coord(n, p.z as int))
    ||| (inner_coord(n, p.x as int) && inner_coord(n, p.y as int) && (p.z == n || p.z == -n))
}

/// One clockwise quarter turn about an axis, looking from the positive end.
pub open spec fn spec_rot1(a: Axis, p: Coord) -> Coord {
    match a {
        Axis::X => Coord { x: p.x, y: p.z, z: (-p.y) as i32 },
        Axis::Y => Coord { x: (-p.z) as i32, y: p.y, z: p.x },
        Axis::Z => Coord { x: p.y, y: (-p.x) as i32, z: p.z },
    }
}

/// `t` quarter turns about an axis.
pub open spec fn spec_rot(a: Axis, t: int, p: Coord) -> Coord
    decreases t,
{
    if t <= 0 {
        p
    } else {
        spec_rot1(a, spec_rot(a, t - 1, p))
    }
}

/// The coordinate of a position along an axis.
pub open spec fn axis_coord(a: Axis, p: Coord) -> int {
    match a {
        Axis::X => p.x as int,
        Axis::Y => p.y as int,
        Axis::Z => p.z as int,
    }
}

/// Coordinates small enough that rotations stay within `i32`.
pub open spec fn coord_bounded(n: int, p: Coord) -> bool {
    -n <= p.x <= n && -n <= p.y <= n && -n <= p.z <= n
}

proof fn lemma_rot1_surface(n: int, a: Axis, p: Coord)
    requires
        valid_size(n),
        on_surface(n, p),
    ensures
        on_surface(n, spec_rot1(a, p)),
        axis_coord(a, spec_rot1(a, p)) == axis_coord(a, p),
        coord_bounded(n, spec_rot1(a, p)),
{
    assert(coord_bounded(n, p));
}

proof fn lemma_rot_surface(n: int, a: Axis, t: int, p: Coord)
    requires
        valid_size(n),
        0 <= t,
        on_surface(n, p),
    ensures
        on_surface(n, spec_rot(a, t, p)),
        axis_coord(a, spec_rot(a, t, p)) == axis_coord(a, p),
        coord_bounded(n, spec_rot(a, t, p)),
    decreases t,
{
    if t <= 0 {
        assert(coord_bounded(n, p));
    } else {
        lemma_rot_surface(n, a, t - 1, p);
        lemma_rot1_surface(n, a, spec_rot(a, t - 1, p));
    }
}

proof fn lemma_rot_add(a: Axis, s: int, t: int, p: Coord)
    requires
        0 <= s,
        0 <= t,
    ensures
        spec_rot(a, s, spec_rot(a, t, p)) == spec_rot(a, s + t, p),
    decreases s,
{
    if s > 0 {
        lemma_rot_add(a, s - 1, t, p);
    }
}

proof fn lemma_rot4(n: int, a: Axis, p: Coord)
    requires
        valid_size(n),
        coord_bounded(n, p),
    ensures
        spec_rot(a, 4, p) == p,
{
    reveal_with_fuel(spec_rot, 5);
    let p1 = spec_rot(a, 1, p);
    let p2 = spec_rot(a, 2, p);
    let p3 = spec_rot(a, 3, p);
    assert(p1 == spec_rot1(a, p));
    assert(p2 == spec_rot1(a, p1));
    assert(p3 == spec_rot1(a, p2));
    assert(spec_rot(a, 4, p) == spec_rot1(a, p3));
}


/// The axis a move rotates about.
pub open spec fn move_axis(mv: Move) -> Axis {
    match mv {
        Move::U(_) | Move::D(_) | Move::Uw(_, _) | Move::Dw(_, _) | Move::Y(_) => Axis::Y,
        Move::R(_) | Move::L(_) | Move::Rw(_, _) | Move::Lw(_, _) | Move::X(_) => Axis::X,
        _ => Axis::Z,
    }
}

/// Whether a move turns in the positive direction of its axis: moves of the
/// U, R and F sides, and whole-cube rotations.
pub open spec fn move_positive(mv: Move) -> bool {
    match mv {
        Move::U(_) | Move::R(_) | Move::F(_) | Move::Uw(_, _) | Move::Rw(_, _) | Move::Fw(_, _)
        | Move::X(_) | Move::Y(_) | Move::Z(_) => true,
        _ => false,
    }
}

/// How many layers a move grabs, counted from its side of the cube.
pub open spec fn move_layers(mv: Move) -> int {
    match mv {
        Move::Uw(k, _) | Move::Lw(k, _) | Move::Fw(k, _) | Move::Rw(k, _) | Move::Bw(k, _)
        | Move::Dw(k, _) => k as int,
        _ => 1,
    }
}

/// Quarter turns a move performs about its axis, in the positive direction.
pub open spec fn move_turns(mv: Move) -> int {
    if move_positive(mv) {
        variant_turns(mv.spec_variant())
    } else {
        4 - variant_turns(mv.spec_variant())
    }
}

/// Smallest axis coordinate a move affects.
pub open spec fn move_lo(n: int, mv: Move) -> int {
    if mv.is_rotation() {
        -n
    } else if move_positive(mv) {
        n + 1 - 2 * move_layers(mv)
    } else {
        -n
    }
}

/// Largest axis coordinate a move affects.
pub open spec fn move_hi(n: int, mv: Move) -> int {
    if mv.is_rotation() {
        n
    } else if move_positive(mv) {
        n
    } else {
        2 * move_layers(mv) - n - 1
    }
}

/// Whether a position lies in the layers a move grabs.
pub open spec fn in_layer(n: int, mv: Move, p: Coord) -> bool {
    move_lo(n, mv) <= axis_coord(move_axis(mv), p) <= move_hi(n, mv)
}

/// Where a move sends a position: affected layers rotate, the rest stay.
pub open spec fn spec_move_pos(n: int, mv: Move, p: Coord) -> Coord {
    if in_layer(n, mv, p) {
        spec_rot(move_axis(mv), move_turns(mv), p)
    } else {
        p
    }
}

/// Where a move takes a position from: the inverse of [`spec_move_pos`].
pub open spec fn spec_unmove_pos(n: int, mv: Move, p: Coord) -> Coord {
    if in_layer(n, mv, p) {
        spec_rot(move_axis(mv), 4 - move_turns(mv), p)
    } else {
        p
    }
}

proof fn lemma_move_turns_range(mv: Move)
    ensures
        1 <= move_turns(mv) <= 3,
{
}

proof fn lemma_move_pos_surface(n: int, mv: Move, p: Coord)
    requires
        valid_size(n),
        on_surface(n, p),
    ensures
        on_surface(n, spec_move_pos(n, mv, p)),
        on_surface(n, spec_unmove_pos(n, mv, p)),
        in_layer(n, mv, spec_move_pos(n, mv, p)) == in_layer(n, mv, p),
        in_layer(n, mv, spec_unmove_pos(n, mv, p)) == in_layer(n, mv, p),
{
    let a = move_axis(mv);
    let t = move_turns(mv);
    lemma_rot_surface(n, a, t, p);
    lemma_rot_surface(n, a, 4 - t, p);
}

proof fn lemma_unmove_move(n: int, mv: Move, p: Coord)
    requires
        valid_size(n),
        on_surface(n, p),
    ensures
        spec_unmove_pos(n, mv, spec_move_pos(n, mv, p)) == p,
        spec_move_pos(n, mv, spec_unmove_pos(n, mv, p)) == p,
{
    let a = move_axis(mv);
    let t = move_turns(mv);
    lemma_move_pos_surface(n, mv, p);
    lemma_rot_add(a, 4 - t, t, p);
    lemma_rot_add(a, t, 4 - t, p);
    assert(coord_bounded(n, p));
    lemma_rot4(n, a, p);
}

/// The reorientation that brings face `f` of the cube to the top, as a map
/// of sticker positions.
pub open spec fn face_rot(f: int, p: Coord) -> Coord {
    if f == 0 {
        p
    } else if f == 1 {
        Coord { x: (-p.z) as i32, y: p.x, z: (-p.y) as i32 }
    } else if f == 2 {
        Coord { x: p.x, y: p.z, z: (-p.y) as i32 }
    } else if f == 3 {
        Coord { x: p.x, y: (-p.y) as i32, z: (-p.z) as i32 }
    } else if f == 4 {
        Coord { x: p.z, y: (-p.x) as i32, z: (-p.y) as i32 }
    } else {
        Coord { x: (-p.x) as i32, y: (-p.z) as i32, z: (-p.y) as i32 }
    }
}

/// The inverse of [`face_rot`].
pub open spec fn face_rot_inv(f: int, p: Coord) -> Coord {
    if f == 0 {
        p
    } else if f == 1 {
        Coord { x: p.y, y: (-p.z) as i32, z: (-p.x) as i32 }
    } else if f == 2 {
        Coord { x: p.x, y: (-p.z) as i32, z: p.y }
    } else if f == 3 {
        Coord { x: p.x, y: (-p.y) as i32, z: (-p.z) as i32 }
    } else if f == 4 {
        Coord { x: (-p.y) as i32, y: (-p.z) as i32, z: p.x }
    } else {
        Coord { x: (-p.x) as i32, y: (-p.z) as i32, z: (-p.y) as i32 }
    }
}

proof fn lemma_face_rot_inverse(n: int, f: int, p: Coord)
    requires
        valid_size(n),
        coord_bounded(n, p),
    ensures
        face_rot_inv(f, face_rot(f, p)) == p,
        face_rot(f, face_rot_inv(f, p)) == p,
{
}

/// The position that shows at the top-face reading slot `(r, c)`.
pub open spec fn top_pos(n: int, r: int, c: int) -> Coord {
    Coord { x: (2 * c - (n - 1)) as i32, y: n as i32, z: (2 * r - (n - 1)) as i32 }
}

/// The position whose sticker shows at state index `s`.
pub open spec fn slot_pos(n: int, s: int) -> Coord {
    let f = s / (n * n);
    let w = s % (n * n);
    face_rot_inv(f, top_pos(n, w / n, w % n))
}

/// The face block a position shows on.
pub open spec fn face_of_pos(n: int, p: Coord) -> int {
    if p.y == n {
        0
    } else if p.x == n {
        1
    } else if p.z == n {
        2
    } else if p.y == -n {
        3
    } else if p.x == -n {
        4
    } else {
        5
    }
}

/// The state index a position's sticker shows at: the inverse of
/// [`slot_pos`].
pub open spec fn slot_of_pos(n: int, p: Coord) -> int {
    let f = face_of_pos(n, p);
    let q = face_rot(f, p);
    let r = (q.z + n - 1) / 2;
    let c = (q.x + n - 1) / 2;
    f * n * n + r * n + c
}

proof fn lemma_slot_decompose(n: int, f: int, r: int, c: int)
    requires
        1 <= n,
        0 <= f < 6,
        0 <= r < n,
        0 <= c < n,
    ensures
        0 <= f * n * n + r * n + c < 6 * n * n,
        (f * n * n + r * n + c) / (n * n) == f,
        ((f * n * n + r * n + c) % (n * n)) / n == r,
        ((f * n * n + r * n + c) % (n * n)) % n == c,
{
    let s = f * n * n + r * n + c;
    assert(0 <= r * n + c < n * n) by (nonlinear_arith)
        requires
            1 <= n,
            0 <= r < n,
            0 <= c < n,
    ;
    assert(f * n * n + r * n + c == f * (n * n) + (r * n + c)) by (nonlinear_arith);
    vstd::arithmetic::div_mod::lemma_fundamental_div_mod_converse(
        s,
        n * n,
        f,
        r * n + c,
    );
    vstd::arithmetic::div_mod::lemma_fundamental_div_mod_converse(r * n + c, n, r, c);
    assert(s < 6 * n * n) by (nonlinear_arith)
        requires
            0 <= f < 6,
            0 <= r * n + c < n * n,
            s == f * (n * n) + (r * n + c),
    ;
}

/// Positions and state indices are in bijection: reading a surface
/// position's slot and looking that slot up again gives the position back.
proof fn lemma_slot_of_pos_valid(n: int, p: Coord)
    requires
        valid_size(n),
        on_surface(n, p),
    ensures
        0 <= slot_of_pos(n, p) < 6 * n * n,
        slot_pos(n, slot_of_pos(n, p)) == p,
{
    let f = face_of_pos(n, p);
    let q = face_rot(f, p);
    let r = (q.z + n - 1) / 2;
    let c = (q.x + n - 1) / 2;
    assert(q.y == n && inner_coord(n, q.x as int) && inner_coord(n, q.z as int));
    assert(0 <= r < n && 2 * r - (n - 1) == q.z);
    assert(0 <= c < n && 2 * c - (n - 1) == q.x);
    lemma_slot_decompose(n, f, r, c);
    assert(top_pos(n, r, c) == q);
    lemma_face_rot_inverse(n, f, p);
}

/// Looking a state index up and reading its slot back round-trips too.
proof fn lemma_slot_pos_valid(n: int, s: int)
    requires
        valid_size(n),
        0 <= s < 6 * n * n,
    ensures
        on_surface(n, slot_pos(n, s)),
        slot_of_pos(n, slot_pos(n, s)) == s,
{
    let f = s / (n * n);
    let w = s % (n * n);
    let r = w / n;
    let c = w % n;
    assert(1 <= n * n) by (nonlinear_arith)
        requires
            1 <= n,
    ;
    assert(6 * (n * n) == 6 * n * n) by (nonlinear_arith);
    vstd::arithmetic::div_mod::lemma_fundamental_div_mod(s, n * n);
    vstd::arithmetic::div_mod::lemma_fundamental_div_mod(w, n);
    assert(0 <= w < n * n);
    assert(0 <= c < n);
    assert(0 <= r < n) by (nonlinear_arith)
        requires
            1 <= n,
            0 <= w < n * n,
            w == r * n + c,
            0 <= c < n,
    ;
    assert(0 <= f < 6) by (nonlinear_arith)
        requires
            1 <= n * n,
            0 <= s < 6 * (n * n),
            s == f * (n * n) + w,
            0 <= w < n * n,
    ;
    let q = top_pos(n, r, c);
    assert(inner_coord(n, q.x as int));
    assert(inner_coord(n, q.z as int));
    let p = face_rot_inv(f, q);
    assert(coord_bounded(n, q));
    lemma_face_rot_inverse(n, f, q);
    assert(on_surface(n, p));
    assert(face_of_pos(n, p) == f);
    assert((q.z + n - 1) / 2 == r);
    assert((q.x + n - 1) / 2 == c);
    assert(s == (n * n) * f + w);
    assert(w == n * r + c);
    assert((n * n) * f == f * n * n && n * r == r * n) by (nonlinear_arith);
    assert(s == f * n * n + (r * n + c));
    lemma_slot_decompose(n, f, r, c);
    assert(s == f * n * n + r * n + c);
}


/// Which state index a move pulls each state index's sticker from: after
/// the move, position `s` shows what stood at position
/// `spec_slot_perm(n, mv, s)` before it.
pub open spec fn spec_slot_perm(n: int, mv: Move, s: int) -> int {
    slot_of_pos(n, spec_unmove_pos(n, mv, slot_pos(n, s)))
}

/// The slot permutation stays within the state indices.
pub proof fn lemma_slot_perm_valid(n: int, mv: Move, s: int)
    requires
        valid_size(n),
        0 <= s < 6 * n * n,
    ensures
        0 <= spec_slot_perm(n, mv, s) < 6 * n * n,
        slot_pos(n, spec_slot_perm(n, mv, s)) == spec_unmove_pos(n, mv, slot_pos(n, s)),
    decreases 0int,
{
    lemma_slot_pos_valid(n, s);
    lemma_move_pos_surface(n, mv, slot_pos(n, s));
    lemma_slot_of_pos_valid(n, spec_unmove_pos(n, mv, slot_pos(n, s)));
}

/// A move and its inverse share axis and layers, and their turns add to a
/// full rotation.
proof fn lemma_inverse_move_shape(n: int, mv: Move)
    ensures
        move_axis(mv.spec_with_variant(variant_of_turns(4 - variant_turns(mv.spec_variant()))))
            == move_axis(mv),
        move_lo(n, mv.spec_with_variant(variant_of_turns(4 - variant_turns(mv.spec_variant()))))
            == move_lo(n, mv),
        move_hi(n, mv.spec_with_variant(variant_of_turns(4 - variant_turns(mv.spec_variant()))))
            == move_hi(n, mv),
        move_turns(mv.spec_with_variant(variant_of_turns(4 - variant_turns(mv.spec_variant()))))
            == 4 - move_turns(mv),
{
}

/// The inverse move's slot permutation undoes the move's, in both orders.
pub proof fn lemma_slot_perm_inverse(n: int, mv: Move, s: int)
    requires
        valid_size(n),
        0 <= s < 6 * n * n,
    ensures
        spec_slot_perm(n, mv, spec_slot_perm(
            n,
            mv.spec_with_variant(variant_of_turns(4 - variant_turns(mv.spec_variant()))),
            s,
        )) == s,
        spec_slot_perm(
            n,
            mv.spec_with_variant(variant_of_turns(4 - variant_turns(mv.spec_variant()))),
            spec_slot_perm(n, mv, s),
        ) == s,
{
    let inv = mv.spec_with_variant(variant_of_turns(4 - variant_turns(mv.spec_variant())));
    lemma_inverse_move_shape(n, mv);
    let p = slot_pos(n, s);
    lemma_slot_pos_valid(n, s);
    // the inverse move's unmove is the move's forward map, and vice versa
    assert forall|q: Coord| on_surface(n, q) implies spec_unmove_pos(n, inv, q) == spec_move_pos(
        n,
        mv,
        q,
    ) by {
        assert(in_layer(n, inv, q) == in_layer(n, mv, q));
    }
    lemma_slot_perm_valid(n, inv, s);
    lemma_slot_perm_valid(n, mv, s);
    lemma_slot_perm_valid(n, mv, spec_slot_perm(n, inv, s));
    lemma_slot_perm_valid(n, inv, spec_slot_perm(n, mv, s));
    lemma_move_pos_surface(n, mv, p);
    lemma_unmove_move(n, mv, p);
    lemma_slot_of_pos_valid(n, spec_move_pos(n, mv, p));
    lemma_slot_of_pos_valid(n, spec_unmove_pos(n, mv, p));
}


/// A facelet of the geometric cube: its centroid position and the face
/// label painted on it. The label changes only by masking; moves change
/// only the position.
#[derive(Clone, Copy, Debug, Eq, Hash, PartialEq, Structural)]
pub struct Sticker {
    /// Current centroid position.
    pub pos: Coord,
    /// The face label the sticker shows.
    pub face: Face,
}

/// A cube whose stickers are geometric: each entry pairs a sticker with the
/// home index it had in the solved cube.
#[derive(Clone, Debug, Eq, Hash, PartialEq)]
pub struct GeoCube {
    pub(crate) size: CubeSize,
    pub(crate) stickers: Vec<(Sticker, CubeSize)>,
}

/// The sticker list of a well-formed geometric cube: one sticker on every
/// surface position, no two sharing a position.
pub open spec fn wf_stickers(n: int, st: Seq<(Sticker, CubeSize)>) -> bool {
    &&& st.len() == 6 * n * n
    &&& forall|i: int| 0 <= i < st.len() ==> on_surface(n, (#[trigger] st[i]).0.pos)
    &&& forall|i: int, j: int|
        0 <= i < st.len() && 0 <= j < st.len() && i != j ==> (#[trigger] st[i]).0.pos != (
        #[trigger] st[j]).0.pos
    &&& forall|p: Coord|
        #[trigger] on_surface(n, p) ==> exists|i: int|
            0 <= i < st.len() && (#[trigger] st[i]).0.pos == p
}

impl GeoCube {
    /// The index of the sticker currently at a position.
    pub closed spec fn idx_at(self, p: Coord) -> int {
        choose|i: int|
            0 <= i < self.stickers@.len() && (#[trigger] self.stickers@[i]).0.pos == p
    }

    /// The face label and home index showing at a position.
    pub closed spec fn entry_at(self, p: Coord) -> (Face, int) {
        (self.stickers@[self.idx_at(p)].0.face, self.stickers@[self.idx_at(p)].1 as int)
    }
}

/// With distinct positions, the sticker at a position is the one put there.
proof fn lemma_idx_at(c: GeoCube, i: int, p: Coord)
    requires
        c.wf(),
        0 <= i < c.stickers@.len(),
        c.stickers@[i].0.pos == p,
    ensures
        c.idx_at(p) == i,
{
    assert(0 <= c.idx_at(p) < c.stickers@.len() && c.stickers@[c.idx_at(p)].0.pos == p) by {
        assert(0 <= i < c.stickers@.len() && c.stickers@[i].0.pos == p);
    }
}

/// The executable twin of [`spec_rot1`].
fn rotate1(n: CubeSize, a: Axis, p: Coord) -> (r: Coord)
    requires
        valid_size(n as int),
        coord_bounded(n as int, p),
    ensures
        r == spec_rot1(a, p),
        coord_bounded(n as int, r),
{
    match a {
        Axis::X => Coord { x: p.x, y: p.z, z: -p.y },
        Axis::Y => Coord { x: -p.z, y: p.y, z: p.x },
        Axis::Z => Coord { x: p.y, y: -p.x, z: p.z },
    }
}

/// The executable twin of [`move_axis`].
fn axis_of(mv: Move) -> (r: Axis)
    ensures
        r == move_axis(mv),
{
    match mv {
        Move::U(_) | Move::D(_) | Move::Uw(_, _) | Move::Dw(_, _) | Move::Y(_) => Axis::Y,
        Move::R(_) | Move::L(_) | Move::Rw(_, _) | Move::Lw(_, _) | Move::X(_) => Axis::X,
        _ => Axis::Z,
    }
}

/// The executable twin of [`move_positive`].
fn positive_of(mv: Move) -> (r: bool)
    ensures
        r == move_positive(mv),
{
    match mv {
        Move::U(_) | Move::R(_) | Move::F(_) | Move::Uw(_, _) | Move::Rw(_, _) | Move::Fw(_, _)
        | Move::X(_) | Move::Y(_) | Move::Z(_) => true,
        _ => false,
    }
}

/// The executable twin of [`move_layers`].
fn layers_of(mv: Move) -> (r: CubeSize)
    ensures
        r as int == move_layers(mv),
{
    match mv {
        Move::Uw(k, _) | Move::Lw(k, _) | Move::Fw(k, _) | Move::Rw(k, _) | Move::Bw(k, _)
        | Move::Dw(k, _) => k,
        _ => 1,
    }
}

/// Where a move sends one sticker position.
fn move_coord(n: CubeSize, mv: Move, p: Coord) -> (r: Coord)
    requires
        valid_size(n as int),
        mv.wf(n as int),
        coord_bounded(n as int, p),
    ensures
        r == spec_move_pos(n as int, mv, p),
        coord_bounded(n as int, r),
{
    let a = axis_of(mv);
    let positive = positive_of(mv);
    let k = layers_of(mv);
    let rotation = match mv {
        Move::X(_) | Move::Y(_) | Move::Z(_) => true,
        _ => false,
    };
    let lo: i32 = if rotation {
        -n
    } else if positive {
        n + 1 - 2 * k
    } else {
        -n
    };
    let hi: i32 = if rotation {
        n
    } else if positive {
        n
    } else {
        2 * k - n - 1
    };
    let ac: i32 = match a {
        Axis::X => p.x,
        Axis::Y => p.y,
        Axis::Z => p.z,
    };
    if lo <= ac && ac <= hi {
        let vt = mv.get_variant().turns();
        let t: u8 = if positive {
            vt
        } else {
            4 - vt
        };
        let mut q = p;
        let mut i: u8 = 0;
        while i < t
            invariant
                valid_size(n as int),
                0 <= i <= t,
                t <= 3,
                q == spec_rot(move_axis(mv), i as int, p),
                coord_bounded(n as int, q),
                a == move_axis(mv),
            decreases t - i,
        {
            q = rotate1(n, a, q);
            i = i + 1;
        }
        q
    } else {
        p
    }
}

/// The executable twin of [`slot_pos`]: the position shown at state index
/// `s`.
pub fn slot_position(n: CubeSize, s: usize) -> (r: Coord)
    requires
        valid_size(n as int),
        0 <= s < 6 * n * n,
    ensures
        r == slot_pos(n as int, s as int),
        on_surface(n as int, r),
{
    proof {
        assert(1 <= n as int * n as int <= 104 * 104) by (nonlinear_arith)
            requires
                1 <= n as int <= 104,
        ;
        assert(6 * (n as int * n as int) == 6 * n as int * n as int) by (nonlinear_arith);
        lemma_slot_pos_valid(n as int, s as int);
    }
    let nn: usize = (n as usize) * (n as usize);
    let f: usize = s / nn;
    let w: usize = s % nn;
    let r_: usize = w / (n as usize);
    let c: usize = w % (n as usize);
    proof {
        assert(f < 6) by (nonlinear_arith)
            requires
                s < 6 * (n as int * n as int),
                nn == n as int * n as int,
                f == s as int / nn as int,
                1 <= nn,
        ;
        assert(w < nn);
        assert(r_ < n as int && c < n as int) by (nonlinear_arith)
            requires
                w < nn,
                nn == n as int * n as int,
                1 <= n as int,
                r_ == w as int / n as int,
                c == w as int % n as int,
        ;
    }
    let tx: i32 = 2 * (c as i32) - (n - 1);
    let tz: i32 = 2 * (r_ as i32) - (n - 1);
    let res = if f == 0 {
        Coord { x: tx, y: n, z: tz }
    } else if f == 1 {
        Coord { x: n, y: -tz, z: -tx }
    } else if f == 2 {
        Coord { x: tx, y: -tz, z: n }
    } else if f == 3 {
        Coord { x: tx, y: -n, z: -tz }
    } else if f == 4 {
        Coord { x: -n, y: -tz, z: tx }
    } else {
        Coord { x: -tx, y: -tz, z: -n }
    };
    proof {
        assert(res == slot_pos(n as int, s as int));
    }
    res
}

/// Copy a sticker list element by element.
fn copy_stickers(v: &Vec<(Sticker, CubeSize)>) -> (r: Vec<(Sticker, CubeSize)>)
    ensures
        r@ == v@,
{
    let mut r: Vec<(Sticker, CubeSize)> = Vec::new();
    let mut i: usize = 0;
    while i < v.len()
        invariant
            0 <= i <= v@.len(),
            r@ =~= v@.take(i as int),
        decreases v@.len() - i,
    {
        r.push(v[i]);
        proof {
            assert(r@ =~= v@.take(i + 1));
        }
        i = i + 1;
    }
    proof {
        assert(v@.take(v@.len() as int) =~= v@);
    }
    r
}

/// Find the sticker currently at a position.
fn find_sticker(v: &Vec<(Sticker, CubeSize)>, target: Coord) -> (idx: usize)
    requires
        exists|i: int| 0 <= i < v@.len() && (#[trigger] v@[i]).0.pos == target,
    ensures
        idx < v@.len(),
        v@[idx as int].0.pos == target,
{
    let mut i: usize = 0;
    while i < v.len()
        invariant
            0 <= i <= v@.len(),
            exists|j: int| 0 <= j < v@.len() && (#[trigger] v@[j]).0.pos == target,
            forall|j: int| 0 <= j < i ==> (#[trigger] v@[j]).0.pos != target,
        decreases v@.len() - i,
    {
        if v[i].0.pos == target {
            return i;
        }
        i = i + 1;
    }
    proof {
        assert(false);
    }
    0
}

impl Cube for GeoCube {
    closed spec fn wf(&self) -> bool {
        valid_size(self.size as int) && wf_stickers(self.size as int, self.stickers@)
    }

    closed spec fn model(&self) -> CubeView {
        CubeView {
            size: self.size as int,
            entries: Seq::new(
                (6 * self.size * self.size) as nat,
                |s: int| self.entry_at(slot_pos(self.size as int, s)),
            ),
        }
    }

    proof fn wf_implies_view_wf(&self) {
    }

    fn new(size: CubeSize) -> (r: Self) {
        let v = GeoCube::generate_stickers(size);
        let r = GeoCube { size, stickers: v };
        proof {
            let n = size as int;
            assert(1 <= n * n <= 104 * 104) by (nonlinear_arith)
                requires
                    1 <= n <= 104,
            ;
            assert(6 * (n * n) == 6 * n * n) by (nonlinear_arith);
            assert(r.wf());
            assert forall|s2: int| 0 <= s2 < 6 * n * n implies r.model().entries[s2]
                == solved_view(n).entries[s2] by {
                lemma_slot_pos_valid(n, s2);
                lemma_idx_at(r, s2, slot_pos(n, s2));
            }
            assert(r.model().entries =~= solved_view(n).entries);
            assert(r.model() =~= solved_view(n));
        }
        r
    }

    fn try_new(size: CubeSize) -> (r: Result<Self, crate::generic_cube::InvalidSizeError>) {
        if 1 <= size && size <= crate::generic_cube::MAX_SIZE {
            Ok(Self::new(size))
        } else {
            Err(crate::generic_cube::InvalidSizeError { size })
        }
    }

    fn size(&self) -> (r: CubeSize) {
        self.size
    }

    #[verifier::loop_isolation(false)]
    fn state(&self) -> (r: Vec<Face>) {
        proof {
            assert(1 <= self.size as int * self.size as int <= 104 * 104) by (nonlinear_arith)
                requires
                    1 <= self.size as int <= 104,
            ;
            assert(6 * (self.size as int * self.size as int) == 6 * self.size as int
                * self.size as int) by (nonlinear_arith);
        }
        let nn: usize = (self.size as usize) * (self.size as usize);
        let total: usize = 6 * nn;
        let mut r: Vec<Face> = Vec::new();
        let mut s: usize = 0;
        while s < total
            invariant
                self.wf(),
                nn == self.size as int * self.size as int,
                total == 6 * nn,
                0 <= s <= total,
                r@.len() == s,
                forall|k: int|
                    0 <= k < s ==> #[trigger] r@[k] == view_faces(self.model())[k],
            decreases total - s,
        {
            let target = slot_position(self.size, s);
            let idx = find_sticker(&self.stickers, target);
            r.push(self.stickers[idx].0.face);
            proof {
                lemma_idx_at(*self, idx as int, target);
                assert(self.model().entries[s as int].0 == self.stickers@[idx as int].0.face);
            }
            s = s + 1;
        }
        proof {
            assert(r@ =~= view_faces(self.model()));
        }
        r
    }

    fn is_solved(&self) -> (r: bool) {
        let st = self.state();
        check_solved_state(&st, self.size)
    }

    fn mask(&self, m: &crate::masking::CubeMask) -> (r: Self) {
        let n = self.size;
        let mut v: Vec<(Sticker, CubeSize)> = Vec::new();
        let mut i: usize = 0;
        while i < self.stickers.len()
            invariant
                self.wf(),
                n == self.size,
                0 <= i <= self.stickers@.len(),
                v@.len() == i,
                forall|k: int|
                    0 <= k < i ==> #[trigger] v@[k] == (
                        Sticker {
                            pos: self.stickers@[k].0.pos,
                            face: crate::masking::spec_mask_face(
                                *m,
                                n as int,
                                self.stickers@[k].1 as int,
                                self.stickers@[k].0.face,
                            ),
                        },
                        self.stickers@[k].1,
                    ),
            decreases self.stickers@.len() - i,
        {
            let (st, tag) = self.stickers[i];
            let nf = crate::masking::mask_face(m, n, tag, st.face);
            v.push((Sticker { pos: st.pos, face: nf }, tag));
            i = i + 1;
        }
        let r = GeoCube { size: n, stickers: v };
        proof {
            let ni = n as int;
            let old_st = self.stickers@;
            let new_st = r.stickers@;
            assert forall|k: int| 0 <= k < new_st.len() implies on_surface(
                ni,
                (#[trigger] new_st[k]).0.pos,
            ) by {
                assert(new_st[k].0.pos == old_st[k].0.pos);
            }
            assert forall|k: int, l: int|
                0 <= k < new_st.len() && 0 <= l < new_st.len() && k != l implies (
            #[trigger] new_st[k]).0.pos != (#[trigger] new_st[l]).0.pos by {
                assert(new_st[k].0.pos == old_st[k].0.pos && new_st[l].0.pos == old_st[l].0.pos);
            }
            assert forall|p: Coord| #[trigger] on_surface(ni, p) implies exists|k: int|
                0 <= k < new_st.len() && (#[trigger] new_st[k]).0.pos == p by {
                let k = choose|k: int| 0 <= k < old_st.len() && (#[trigger] old_st[k]).0.pos == p;
                assert(new_st[k].0.pos == p);
            }
            assert(r.wf());
            assert forall|s2: int| 0 <= s2 < 6 * ni * ni implies r.model().entries[s2]
                == crate::masking::view_mask(self.model(), *m).entries[s2] by {
                lemma_slot_pos_valid(ni, s2);
                let q = slot_pos(ni, s2);
                let k = self.idx_at(q);
                assert(0 <= k < old_st.len() && old_st[k].0.pos == q) by {
                    assert(on_surface(ni, q));
                }
                lemma_idx_at(r, k, q);
            }
            assert(r.model().entries =~= crate::masking::view_mask(self.model(), *m).entries);
            assert(r.model() =~= crate::masking::view_mask(self.model(), *m));
        }
        r
    }

    fn apply_move(&self, mv: Move) -> (r: Self) {
        let n = self.size;
        let ghost ni = n as int;
        let mut v: Vec<(Sticker, CubeSize)> = Vec::new();
        let mut i: usize = 0;
        while i < self.stickers.len()
            invariant
                self.wf(),
                mv.wf(ni),
                n == self.size,
                ni == n as int,
                0 <= i <= self.stickers@.len(),
                v@.len() == i,
                forall|k: int|
                    0 <= k < i ==> #[trigger] v@[k] == (
                        Sticker {
                            pos: spec_move_pos(ni, mv, self.stickers@[k].0.pos),
                            face: self.stickers@[k].0.face,
                        },
                        self.stickers@[k].1,
                    ),
            decreases self.stickers@.len() - i,
        {
            let (st, tag) = self.stickers[i];
            proof {
                assert(on_surface(ni, self.stickers@[i as int].0.pos));
            }
            let np = move_coord(n, mv, st.pos);
            v.push((Sticker { pos: np, face: st.face }, tag));
            i = i + 1;
        }
        let r = GeoCube { size: n, stickers: v };
        proof {
            let old_st = self.stickers@;
            let new_st = r.stickers@;
            // surface membership and distinctness carry over through the move map
            assert forall|k: int| 0 <= k < new_st.len() implies on_surface(
                ni,
                (#[trigger] new_st[k]).0.pos,
            ) by {
                lemma_move_pos_surface(ni, mv, old_st[k].0.pos);
            }
            assert forall|k: int, l: int|
                0 <= k < new_st.len() && 0 <= l < new_st.len() && k != l implies (
            #[trigger] new_st[k]).0.pos != (#[trigger] new_st[l]).0.pos by {
                if new_st[k].0.pos == new_st[l].0.pos {
                    lemma_unmove_move(ni, mv, old_st[k].0.pos);
                    lemma_unmove_move(ni, mv, old_st[l].0.pos);
                }
            }
            assert forall|p: Coord| #[trigger] on_surface(ni, p) implies exists|k: int|
                0 <= k < new_st.len() && (#[trigger] new_st[k]).0.pos == p by {
                lemma_move_pos_surface(ni, mv, p);
                let q = spec_unmove_pos(ni, mv, p);
                let k = choose|k: int| 0 <= k < old_st.len() && (#[trigger] old_st[k]).0.pos == q;
                lemma_unmove_move(ni, mv, p);
                assert(new_st[k].0.pos == spec_move_pos(ni, mv, q));
                assert(spec_move_pos(ni, mv, q) == p);
            }
            assert(r.wf());
            // every slot now shows what stood at the slot the move pulls from
            assert forall|s2: int| 0 <= s2 < 6 * ni * ni implies r.model().entries[s2]
                == view_apply(self.model(), mv).entries[s2] by {
                lemma_slot_pos_valid(ni, s2);
                let q = slot_pos(ni, s2);
                lemma_slot_perm_valid(ni, mv, s2);
                let sp = spec_slot_perm(ni, mv, s2);
                let uq = spec_unmove_pos(ni, mv, q);
                lemma_move_pos_surface(ni, mv, q);
                let k = choose|k: int| 0 <= k < old_st.len() && (#[trigger] old_st[k]).0.pos == uq;
                lemma_unmove_move(ni, mv, q);
                lemma_unmove_move(ni, mv, uq);
                assert(new_st[k].0.pos == q);
                lemma_idx_at(r, k, q);
                lemma_idx_at(*self, k, uq);
                assert(slot_pos(ni, sp) == uq);
                assert(self.model().entries[sp] == self.entry_at(uq));
            }
            assert(r.model().entries =~= view_apply(self.model(), mv).entries);
            assert(r.model() =~= view_apply(self.model(), mv));
        }
        r
    }

    fn apply_moves(&self, mvs: &Vec<Move>) -> (r: Self) {
        let mut cur = GeoCube { size: self.size, stickers: copy_stickers(&self.stickers) };
        let mut i: usize = 0;
        proof {
            assert(mvs@.take(0) =~= Seq::<Move>::empty());
            assert(cur.model() =~= self.model());
        }
        while i < mvs.len()
            invariant
                self.wf(),
                forall|k: int| 0 <= k < mvs@.len() ==> (#[trigger] mvs@[k]).wf(self.model().size),
                0 <= i <= mvs@.len(),
                cur.wf(),
                cur.model() == view_apply_seq(self.model(), mvs@.take(i as int)),
                cur.model().size == self.model().size,
            decreases mvs@.len() - i,
        {
            let mv = mvs[i];
            cur = cur.apply_move(mv);
            proof {
                lemma_view_apply_seq_snoc(self.model(), mvs@, i as int);
            }
            i = i + 1;
        }
        proof {
            assert(mvs@.take(mvs@.len() as int) =~= mvs@);
        }
        cur
    }
}

impl GeoCube {
    /// The stickers of a solved cube: one per surface position, labelled
    /// with the face it sits on and tagged with its state index as home
    /// index.
    #[verifier::loop_isolation(false)]
    pub fn generate_stickers(size: CubeSize) -> (v: Vec<(Sticker, CubeSize)>)
        requires
            valid_size(size as int),
        ensures
            wf_stickers(size as int, v@),
            forall|k: int|
                0 <= k < v@.len() ==> #[trigger] v@[k] == (
                    Sticker {
                        pos: slot_pos(size as int, k),
                        face: ordered_face(k / (size as int * size as int)),
                    },
                    k as CubeSize,
                ),
    {
        proof {
            assert(1 <= size as int * size as int <= 104 * 104) by (nonlinear_arith)
                requires
                    1 <= size as int <= 104,
            ;
            assert(6 * (size as int * size as int) == 6 * size as int * size as int)
                by (nonlinear_arith);
        }
        let nn: usize = (size as usize) * (size as usize);
        let total: usize = 6 * nn;
        let mut v: Vec<(Sticker, CubeSize)> = Vec::new();
        let mut s: usize = 0;
        while s < total
            invariant
                valid_size(size as int),
                nn == size as int * size as int,
                total == 6 * nn,
                0 <= s <= total,
                v@.len() == s,
                forall|k: int|
                    0 <= k < s ==> #[trigger] v@[k] == (
                        Sticker {
                            pos: slot_pos(size as int, k),
                            face: ordered_face(k / (size as int * size as int)),
                        },
                        k as CubeSize,
                    ),
            decreases total - s,
        {
            let pos = slot_position(size, s);
            proof {
                assert((s as int) / (nn as int) < 6) by (nonlinear_arith)
                    requires
                        (s as int) < 6 * (nn as int),
                        1 <= nn as int,
                ;
            }
            let face = ORDERED_FACES[s / nn];
            v.push((Sticker { pos, face }, s as CubeSize));
            s = s + 1;
        }
        proof {
            let n = size as int;
            assert forall|i: int| 0 <= i < v@.len() implies on_surface(
                n,
                (#[trigger] v@[i]).0.pos,
            ) by {
                lemma_slot_pos_valid(n, i);
            }
            assert forall|i: int, j: int|
                0 <= i < v@.len() && 0 <= j < v@.len() && i != j implies (#[trigger] v@[i]).0.pos
                != (#[trigger] v@[j]).0.pos by {
                lemma_slot_pos_valid(n, i);
                lemma_slot_pos_valid(n, j);
            }
            assert forall|p: Coord| #[trigger] on_surface(n, p) implies exists|i: int|
                0 <= i < v@.len() && (#[trigger] v@[i]).0.pos == p by {
                lemma_slot_of_pos_valid(n, p);
                let i = slot_of_pos(n, p);
                assert(v@[i].0.pos == p);
            }
        }
        v
    }

    /// Returns the range of facelet centre coordinates along an arbitrary
    /// axis.
    pub fn range(size: CubeSize) -> (r: Vec<CubeSize>)
        requires
            valid_size(size as int),
        ensures
            r@.len() == size as int,
            forall|i: int| 0 <= i < r@.len() ==> #[trigger] r@[i] == 1 - size + 2 * i,
    {
        let mut r: Vec<CubeSize> = Vec::new();
        let mut v: i32 = 1 - size;
        let mut i: usize = 0;
        while i < size as usize
            invariant
                valid_size(size as int),
                0 <= i <= size as int,
                v == 1 - size + 2 * i,
                r@.len() == i,
                forall|k: int| 0 <= k < r@.len() ==> #[trigger] r@[k] == 1 - size + 2 * k,
            decreases size as int - i,
        {
            r.push(v);
            v = v + 2;
            i = i + 1;
        }
        r
    }

    /// The home index showing at every state position: reading them off a
    /// freshly turned solved cube yields the move's index permutation.
    #[verifier::loop_isolation(false)]
    pub fn home_indices(&self) -> (r: Vec<CubeSize>)
        requires
            self.wf(),
        ensures
            r@.len() == self.model().entries.len(),
            forall|s: int|
                0 <= s < r@.len() ==> #[trigger] r@[s] as int == self.model().entries[s].1,
    {
        proof {
            assert(1 <= self.size as int * self.size as int <= 104 * 104) by (nonlinear_arith)
                requires
                    1 <= self.size as int <= 104,
            ;
            assert(6 * (self.size as int * self.size as int) == 6 * self.size as int
                * self.size as int) by (nonlinear_arith);
        }
        let nn: usize = (self.size as usize) * (self.size as usize);
        let total: usize = 6 * nn;
        let mut r: Vec<CubeSize> = Vec::new();
        let mut s: usize = 0;
        while s < total
            invariant
                self.wf(),
                nn == self.size as int * self.size as int,
                total == 6 * nn,
                0 <= s <= total,
                r@.len() == s,
                forall|k: int|
                    0 <= k < s ==> #[trigger] r@[k] as int == self.model().entries[k].1,
            decreases total - s,
        {
            let target = slot_position(self.size, s);
            let idx = find_sticker(&self.stickers, target);
            r.push(self.stickers[idx].1);
            proof {
                lemma_idx_at(*self, idx as int, target);
                assert(self.model().entries[s as int].1 == self.stickers@[idx as int].1 as int);
            }
            s = s + 1;
        }
        r
    }

    /// The stickers of the cube, without their home indices: one per
    /// surface position, no two sharing a position, each showing the label
    /// the model shows at the slot its position occupies.
    pub fn stickers(&self) -> (r: Vec<Sticker>)
        requires
            self.wf(),
        ensures
            r@.len() == self.model().entries.len(),
            forall|i: int|
                0 <= i < r@.len() ==> on_surface(self.model().size, (#[trigger] r@[i]).pos),
            forall|i: int, j: int|
                0 <= i < r@.len() && 0 <= j < r@.len() && i != j ==> (#[trigger] r@[i]).pos != (
                #[trigger] r@[j]).pos,
            forall|i: int|
                0 <= i < r@.len() ==> (#[trigger] r@[i]).face == self.model().entries[slot_of_pos(
                    self.model().size,
                    r@[i].pos,
                )].0,
    {
        let mut r: Vec<Sticker> = Vec::new();
        let mut i: usize = 0;
        while i < self.stickers.len()
            invariant
                self.wf(),
                0 <= i <= self.stickers@.len(),
                r@.len() == i,
                forall|k: int| 0 <= k < r@.len() ==> #[trigger] r@[k] == self.stickers@[k].0,
            decreases self.stickers@.len() - i,
        {
            r.push(self.stickers[i].0);
            i = i + 1;
        }
        proof {
            assert(forall|k: int|
                0 <= k < r@.len() ==> on_surface(self.size as int, (#[trigger] r@[k]).pos));
            assert(1 <= self.size as int * self.size as int) by (nonlinear_arith)
                requires
                    1 <= self.size as int,
            ;
            assert(6 * (self.size as int * self.size as int) == 6 * self.size as int
                * self.size as int) by (nonlinear_arith);
            assert forall|k: int| 0 <= k < r@.len() implies (#[trigger] r@[k]).face
                == self.model().entries[slot_of_pos(self.model().size, r@[k].pos)].0 by {
                let n = self.size as int;
                let p = self.stickers@[k].0.pos;
                assert(on_surface(n, p));
                lemma_slot_of_pos_valid(n, p);
                let s2 = slot_of_pos(n, p);
                assert(slot_pos(n, s2) == p);
                lemma_idx_at(*self, k, p);
                assert(self.model().entries[s2] == self.entry_at(p));
            }
        }
        r
    }
}


/// How many coordinates of a position are zero.
spec fn zeros_of(p: Coord) -> int {
    (if p.x == 0 {
        1int
    } else {
        0int
    }) + (if p.y == 0 {
        1int
    } else {
        0int
    }) + (if p.z == 0 {
        1int
    } else {
        0int
    })
}

/// A quarter turn permutes and negates coordinates, so it keeps how many
/// of them are zero.
proof fn lemma_rot1_zeros(n: int, a: Axis, p: Coord)
    requires
        valid_size(n),
        coord_bounded(n, p),
    ensures
        zeros_of(spec_rot1(a, p)) == zeros_of(p),
        coord_bounded(n, spec_rot1(a, p)),
{
}

/// Any number of quarter turns keeps the zero count of a position.
proof fn lemma_rot_zeros(n: int, a: Axis, t: int, p: Coord)
    requires
        valid_size(n),
        coord_bounded(n, p),
        0 <= t,
    ensures
        zeros_of(spec_rot(a, t, p)) == zeros_of(p),
        coord_bounded(n, spec_rot(a, t, p)),
    decreases t,
{
    if t > 0 {
        lemma_rot_zeros(n, a, t - 1, p);
        lemma_rot1_zeros(n, a, spec_rot(a, t - 1, p));
    }
}

/// The face reorientations keep the zero count of a position.
proof fn lemma_face_rot_zeros(n: int, f: int, p: Coord)
    requires
        valid_size(n),
        coord_bounded(n, p),
    ensures
        zeros_of(face_rot(f, p)) == zeros_of(p),
        zeros_of(face_rot_inv(f, p)) == zeros_of(p),
{
}

/// For the three-layer cube, the centre slots are exactly the state indices
/// congruent to four modulo nine: a face's centre sticker sits at the middle
/// of its three-by-three block, and its position has two zero coordinates.
proof fn lemma_center_slot(s: int)
    requires
        0 <= s < 54,
    ensures
        (s % 9 == 4) <==> (zeros_of(slot_pos(3, s)) == 2),
{
    let f = s / 9;
    let w = s % 9;
    let r = w / 3;
    let c = w % 3;
    vstd::arithmetic::div_mod::lemma_fundamental_div_mod(s, 9);
    vstd::arithmetic::div_mod::lemma_fundamental_div_mod(w, 3);
    let q = top_pos(3, r, c);
    assert(slot_pos(3, s) == face_rot_inv(f, q));
    assert(q.y == 3);
    assert(zeros_of(q) == 2 <==> (r == 1 && c == 1));
    assert(w == 4 <==> (r == 1 && c == 1));
    assert(coord_bounded(3, q));
    lemma_face_rot_zeros(3, f, q);
}

/// Moves of the three-layer cube map centre slots to centre slots and
/// non-centre slots to non-centre slots.
pub proof fn lemma_slot_perm_center(mv: Move, s: int)
    requires
        0 <= s < 54,
    ensures
        (spec_slot_perm(3, mv, s) % 9 == 4) <==> (s % 9 == 4),
{
    lemma_slot_pos_valid(3, s);
    let p = slot_pos(3, s);
    lemma_move_pos_surface(3, mv, p);
    let u = spec_unmove_pos(3, mv, p);
    assert(coord_bounded(3, p));
    assert(zeros_of(u) == zeros_of(p)) by {
        if in_layer(3, mv, p) {
            lemma_move_turns_range(mv);
            lemma_rot_zeros(3, move_axis(mv), 4 - move_turns(mv), p);
        }
    }
    lemma_slot_of_pos_valid(3, u);
    lemma_center_slot(s);
    lemma_center_slot(slot_of_pos(3, u));
    assert(slot_pos(3, slot_of_pos(3, u)) == u);
}

/// Replacing a move's variant never changes its axis, direction or layers.
proof fn lemma_with_variant_shape(n: int, mv: Move, v: MoveVariant)
    ensures
        move_axis(mv.spec_with_variant(v)) == move_axis(mv),
        move_lo(n, mv.spec_with_variant(v)) == move_lo(n, mv),
        move_hi(n, mv.spec_with_variant(v)) == move_hi(n, mv),
        move_positive(mv.spec_with_variant(v)) == move_positive(mv),
        variant_turns(mv.spec_with_variant(v).spec_variant()) == variant_turns(v),
{
}

/// Rotating four extra quarter turns changes nothing.
proof fn lemma_rot_mod4(n: int, a: Axis, t: int, p: Coord)
    requires
        valid_size(n),
        coord_bounded(n, p),
        0 <= t,
    ensures
        spec_rot(a, t + 4, p) == spec_rot(a, t, p),
{
    lemma_rot_add(a, t, 4, p);
    lemma_rot4(n, a, p);
}

/// Same-family moves share axis, direction and layers.
proof fn lemma_same_family_shape(n: int, a: Move, b: Move)
    requires
        a.same_family(b),
    ensures
        move_axis(b) == move_axis(a),
        move_lo(n, b) == move_lo(n, a),
        move_hi(n, b) == move_hi(n, a),
        move_positive(b) == move_positive(a),
{
    lemma_with_variant_shape(n, a, b.spec_variant());
}

/// Undoing two rotations about one axis equals undoing their merged turn.
proof fn lemma_unrot_chain(n: int, ax: Axis, ta: int, tb: int, p: Coord)
    requires
        valid_size(n),
        coord_bounded(n, p),
        1 <= ta <= 3,
        1 <= tb <= 3,
    ensures
        spec_rot(ax, 4 - ta, spec_rot(ax, 4 - tb, p)) == if (ta + tb) % 4 == 0 {
            p
        } else {
            spec_rot(ax, 4 - ((ta + tb) % 4), p)
        },
{
    lemma_rot_add(ax, 4 - ta, 4 - tb, p);
    let u = (ta + tb) % 4;
    if u == 0 {
        assert(ta + tb == 4);
        lemma_rot4(n, ax, p);
    } else if ta + tb < 4 {
        assert(8 - ta - tb == (4 - u) + 4);
        lemma_rot_mod4(n, ax, 4 - u, p);
    } else {
        assert(ta + tb > 4 && u == ta + tb - 4);
        assert(8 - ta - tb == 4 - u);
    }
}

/// Composing the slot permutations of two same-family moves gives the slot
/// permutation of the merged move, or the identity when the turns cancel.
pub proof fn lemma_slot_perm_merge(n: int, a: Move, b: Move, s: int)
    requires
        valid_size(n),
        0 <= s < 6 * n * n,
        a.same_family(b),
    ensures
        ({
            let t = (variant_turns(a.spec_variant()) + variant_turns(b.spec_variant())) % 4;
            if t == 0 {
                spec_slot_perm(n, a, spec_slot_perm(n, b, s)) == s
            } else {
                spec_slot_perm(n, a, spec_slot_perm(n, b, s)) == spec_slot_perm(
                    n,
                    a.spec_with_variant(variant_of_turns(t)),
                    s,
                )
            }
        }),
{
    let va = variant_turns(a.spec_variant());
    let vb = variant_turns(b.spec_variant());
    let t = (va + vb) % 4;
    let ax = move_axis(a);
    let ta = move_turns(a);
    let tb = move_turns(b);
    lemma_same_family_shape(n, a, b);
    let c = a.spec_with_variant(variant_of_turns(t));
    lemma_with_variant_shape(n, a, variant_of_turns(t));
    // merged turn counts agree modulo a full rotation
    assert(1 <= ta <= 3 && 1 <= tb <= 3);
    assert(move_positive(a) ==> ta == va && tb == vb);
    assert(!move_positive(a) ==> ta == 4 - va && tb == 4 - vb);
    let u = (ta + tb) % 4;
    assert(t == 0 ==> u == 0);
    if t != 0 {
        assert(1 <= t <= 3 && variant_turns(variant_of_turns(t)) == t);
        assert(move_turns(c) == if move_positive(a) {
            t
        } else {
            4 - t
        });
        assert(u == move_turns(c));
    }
    let p = slot_pos(n, s);
    lemma_slot_pos_valid(n, s);
    lemma_slot_perm_valid(n, b, s);
    let q = spec_unmove_pos(n, b, p);
    lemma_move_pos_surface(n, b, p);
    lemma_slot_perm_valid(n, a, spec_slot_perm(n, b, s));
    assert(coord_bounded(n, p));
    if in_layer(n, b, p) {
        assert(in_layer(n, a, q)) by {
            lemma_move_pos_surface(n, b, p);
            assert(in_layer(n, a, p) == in_layer(n, b, p));
        }
        lemma_unrot_chain(n, ax, ta, tb, p);
        assert(spec_unmove_pos(n, a, q) == spec_rot(ax, 4 - ta, spec_rot(ax, 4 - tb, p)));
        if t == 0 {
            assert(spec_unmove_pos(n, a, q) == p);
            lemma_slot_of_pos_valid(n, p);
        } else {
            assert(in_layer(n, c, p));
            assert(spec_unmove_pos(n, c, p) == spec_rot(ax, 4 - u, p));
            assert(spec_unmove_pos(n, a, q) == spec_unmove_pos(n, c, p));
        }
    } else {
        assert(q == p);
        assert(!in_layer(n, a, p));
        if t != 0 {
            assert(!in_layer(n, c, p));
        }
        lemma_slot_of_pos_valid(n, p);
    }
}

} // verus!
