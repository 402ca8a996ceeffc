//! The facelet cube: stickers stored sequentially in state order, each
//! tagged with its home index.
//!
//! A move is an index permutation: position `j` of the turned cube shows
//! what stood at position `perm[j]`. The permutation of a move is derived
//! once from the geometric cube — turn a freshly indexed solved [`GeoCube`]
//! and read off where every home index went — and can be kept in a
//! [`MoveTable`] for reuse.

use vstd::prelude::*;

use crate::generic_cube::{
    check_solved_state, solved_view, valid_size, view_apply, view_apply_seq, view_faces,
    lemma_view_apply_seq_snoc, Cube, CubeSize, CubeView, Face, Move, ORDERED_FACES,
};
use crate::geometric_cube::{lemma_slot_perm_valid, spec_slot_perm, GeoCube};
use crate::masking::{mask_face, spec_mask_face, view_mask, CubeMask};

verus! {

/// A cube with stickers stored in a flat array, tagged with home indices.
#[derive(Clone, Debug, Eq, Hash, PartialEq)]
pub struct FaceletCube {
    size: CubeSize,
    faces: Vec<(Face, u16)>,
}

/// A vector repeated from one element.
pub fn repeat<T: Copy>(element: T, count: usize) -> (r: Vec<T>)
    ensures
        r@.len() == count,
        forall|i: int| 0 <= i < r@.len() ==> #[trigger] r@[i] == element,
{
    let mut r: Vec<T> = Vec::new();
    let mut i: usize = 0;
    while i < count
        invariant
            0 <= i <= count,
            r@.len() == i,
            forall|k: int| 0 <= k < r@.len() ==> #[trigger] r@[k] == element,
        decreases count - i,
    {
        r.push(element);
        i = i + 1;
    }
    r
}

/// The index permutation a move performs on a cube of the given size,
/// derived from the geometric form: position `j` of the turned cube shows
/// the sticker of position `perm[j]`.
pub fn compute_permutation(size: CubeSize, mv: Move) -> (perm: Vec<u16>)
    requires
        valid_size(size as int),
        mv.wf(size as int),
    ensures
        perm@.len() == 6 * size * size,
        forall|j: int|
            0 <= j < perm@.len() ==> #[trigger] perm@[j] as int == spec_slot_perm(
                size as int,
                mv,
                j,
            ),
{
    proof {
        assert(1 <= size as int * size as int <= 104 * 104) by (nonlinear_arith)
            requires
                1 <= size as int <= 104,
        ;
        assert(6 * (size as int * size as int) == 6 * size as int * size as int)
            by (nonlinear_arith);
    }
    let geo = GeoCube::new(size);
    let moved = geo.apply_move(mv);
    let homes = moved.home_indices();
    let mut perm: Vec<u16> = Vec::new();
    let mut j: usize = 0;
    proof {
        assert(moved.model().entries.len() == 6 * size as int * size as int);
        assert forall|k: int| 0 <= k < homes@.len() implies #[trigger] homes@[k] as int
            == spec_slot_perm(size as int, mv, k) by {
            lemma_slot_perm_valid(size as int, mv, k);
            assert(moved.model().entries[k] == solved_view(size as int).entries[spec_slot_perm(
                size as int,
                mv,
                k,
            )]);
        }
    }
    while j < homes.len()
        invariant
            valid_size(size as int),
            homes@.len() == 6 * size as int * size as int,
            forall|k: int|
                0 <= k < homes@.len() ==> #[trigger] homes@[k] as int == spec_slot_perm(
                    size as int,
                    mv,
                    k,
                ),
            0 <= j <= homes@.len(),
            perm@.len() == j,
            forall|k: int|
                0 <= k < perm@.len() ==> #[trigger] perm@[k] as int == spec_slot_perm(
                    size as int,
                    mv,
                    k,
                ),
        decreases homes@.len() - j,
    {
        proof {
            lemma_slot_perm_valid(size as int, mv, j as int);
            assert(6 * size as int * size as int <= 6 * 104 * 104) by (nonlinear_arith)
                requires
                    1 <= size as int <= 104,
            ;
        }
        perm.push(homes[j] as u16);
        j = j + 1;
    }
    perm
}

/// Apply an index permutation to a sticker list.
fn permute_faces(faces: &Vec<(Face, u16)>, perm: &Vec<u16>) -> (r: Vec<(Face, u16)>)
    requires
        perm@.len() == faces@.len(),
        forall|j: int| 0 <= j < perm@.len() ==> 0 <= #[trigger] perm@[j] < faces@.len(),
    ensures
        r@.len() == faces@.len(),
        forall|j: int| 0 <= j < r@.len() ==> #[trigger] r@[j] == faces@[perm@[j] as int],
{
    let mut r: Vec<(Face, u16)> = Vec::new();
    let mut j: usize = 0;
    while j < perm.len()
        invariant
            perm@.len() == faces@.len(),
            forall|k: int| 0 <= k < perm@.len() ==> 0 <= #[trigger] perm@[k] < faces@.len(),
            0 <= j <= perm@.len(),
            r@.len() == j,
            forall|k: int| 0 <= k < r@.len() ==> #[trigger] r@[k] == faces@[perm@[k] as int],
        decreases perm@.len() - j,
    {
        r.push(faces[perm[j] as usize]);
        j = j + 1;
    }
    r
}

/// Copy a sticker list element by element.
fn copy_faces(v: &Vec<(Face, u16)>) -> (r: Vec<(Face, u16)>)
    ensures
        r@ == v@,
{
    let mut r: Vec<(Face, u16)> = Vec::new();
    let mut i: usize = 0;
    while i < v.len()
        invariant
            0 <= i <= v@.len(),
            r@ =~= v@.take(i as int),
        decreases v@.len() - i,
    {
        r.push(v[i]);
        proof {
            assert(r@ =~= v@.take(i + 1));
        }
        i = i + 1;
    }
    proof {
        assert(v@.take(v@.len() as int) =~= v@);
    }
    r
}

impl FaceletCube {
    /// The entries of the model: labels with home indices.
    pub closed spec fn spec_entries(self) -> Seq<(Face, int)> {
        self.faces@.map_values(|p: (Face, u16)| (p.0, p.1 as int))
    }

    /// Builds a cube of the given size showing the given labels, each
    /// sticker tagged with its own position as home index, as in a freshly
    /// relabelled solved cube. Rejects a size outside the supported range
    /// and a label vector of the wrong length.
    pub fn from_faces(size: CubeSize, faces: &Vec<Face>) -> (r: Option<Self>)
        ensures
            r is Some <==> valid_size(size as int) && faces@.len() == 6 * size * size,
            r matches Some(c) ==> {
                &&& c.wf()
                &&& c.model().size == size as int
                &&& c.model().entries.len() == faces@.len()
                &&& forall|i: int|
                    0 <= i < faces@.len() ==> c.model().entries[i] == (faces@[i], i)
            },
    {
        if size < 1 || size > crate::generic_cube::MAX_SIZE {
            return None;
        }
        proof {
            assert(1 <= size as int * size as int <= 104 * 104) by (nonlinear_arith)
                requires
                    1 <= size as int <= 104,
            ;
            assert(6 * (size as int * size as int) == 6 * size as int * size as int)
                by (nonlinear_arith);
        }
        let nn: usize = (size as usize) * (size as usize);
        let total: usize = 6 * nn;
        if faces.len() != total {
            return None;
        }
        let mut v: Vec<(Face, u16)> = Vec::new();
        let mut s: usize = 0;
        while s < total
            invariant
                total == 6 * size as int * size as int,
                total <= 6 * 104 * 104,
                faces@.len() == total,
                0 <= s <= total,
                v@.len() == s,
                forall|k: int| 0 <= k < s ==> #[trigger] v@[k] == (faces@[k], k as u16),
            decreases total - s,
        {
            v.push((faces[s], s as u16));
            s = s + 1;
        }
        let r = FaceletCube { size, faces: v };
        proof {
            assert forall|i: int| 0 <= i < faces@.len() implies r.model().entries[i] == (
                faces@[i],
                i,
            ) by {
                assert(r.model().entries[i] == (v@[i].0, v@[i].1 as int));
            }
        }
        Some(r)
    }

    /// A duplicate with the same model.
    pub fn duplicate(&self) -> (r: Self)
        requires
            self.wf(),
        ensures
            r.wf(),
            r.model() == self.model(),
    {
        let r = FaceletCube { size: self.size, faces: copy_faces(&self.faces) };
        proof {
            assert(r.model() =~= self.model());
        }
        r
    }
}

impl Cube for FaceletCube {
    closed spec fn wf(&self) -> bool {
        valid_size(self.size as int) && self.faces@.len() == 6 * self.size * self.size
    }

    closed spec fn model(&self) -> CubeView {
        CubeView { size: self.size as int, entries: self.spec_entries() }
    }

    proof fn wf_implies_view_wf(&self) {
    }

    #[verifier::loop_isolation(false)]
    fn new(size: CubeSize) -> (r: Self) {
        proof {
            assert(1 <= size as int * size as int <= 104 * 104) by (nonlinear_arith)
                requires
                    1 <= size as int <= 104,
            ;
            assert(6 * (size as int * size as int) == 6 * size as int * size as int)
                by (nonlinear_arith);
        }
        let nn: usize = (size as usize) * (size as usize);
        let total: usize = 6 * nn;
        let mut v: Vec<(Face, u16)> = Vec::new();
        let mut s: usize = 0;
        while s < total
            invariant
                0 <= s <= total,
                v@.len() == s,
                forall|k: int|
                    0 <= k < s ==> #[trigger] v@[k] == (
                        crate::generic_cube::ordered_face(k / (size as int * size as int)),
                        k as u16,
                    ),
            decreases total - s,
        {
            proof {
                assert((s as int) / (nn as int) < 6) by (nonlinear_arith)
                    requires
                        (s as int) < 6 * (nn as int),
                        1 <= nn as int,
                ;
            }
            let face = ORDERED_FACES[s / nn];
            v.push((face, s as u16));
            s = s + 1;
        }
        let r = FaceletCube { size, faces: v };
        proof {
            assert(r.model().entries =~= solved_view(size as int).entries);
            assert(r.model() =~= solved_view(size as int));
        }
        r
    }

    fn try_new(size: CubeSize) -> (r: Result<Self, crate::generic_cube::InvalidSizeError>) {
        if 1 <= size && size <= crate::generic_cube::MAX_SIZE {
            Ok(Self::new(size))
        } else {
            Err(crate::generic_cube::InvalidSizeError { size })
        }
    }

    fn size(&self) -> (r: CubeSize) {
        self.size
    }

    fn state(&self) -> (r: Vec<Face>) {
        let mut r: Vec<Face> = Vec::new();
        let mut i: usize = 0;
        while i < self.faces.len()
            invariant
                self.wf(),
                0 <= i <= self.faces@.len(),
                r@.len() == i,
                forall|k: int| 0 <= k < r@.len() ==> #[trigger] r@[k] == self.faces@[k].0,
            decreases self.faces@.len() - i,
        {
            r.push(self.faces[i].0);
            i = i + 1;
        }
        proof {
            assert(r@ =~= view_faces(self.model()));
        }
        r
    }

    fn is_solved(&self) -> (r: bool) {
        let st = self.state();
        check_solved_state(&st, self.size)
    }

    fn mask(&self, m: &CubeMask) -> (r: Self) {
        let mut v: Vec<(Face, u16)> = Vec::new();
        let mut i: usize = 0;
        while i < self.faces.len()
            invariant
                self.wf(),
                0 <= i <= self.faces@.len(),
                v@.len() == i,
                forall|k: int|
                    0 <= k < i ==> #[trigger] v@[k] == (
                        spec_mask_face(
                            *m,
                            self.size as int,
                            self.faces@[k].1 as int,
                            self.faces@[k].0,
                        ),
                        self.faces@[k].1,
                    ),
            decreases self.faces@.len() - i,
        {
            let (f, tag) = self.faces[i];
            let nf = mask_face(m, self.size, tag as i32, f);
            v.push((nf, tag));
            i = i + 1;
        }
        let r = FaceletCube { size: self.size, faces: v };
        proof {
            assert(r.model().entries =~= view_mask(self.model(), *m).entries);
            assert(r.model() =~= view_mask(self.model(), *m));
        }
        r
    }

    fn apply_move(&self, mv: Move) -> (r: Self) {
        let perm = compute_permutation(self.size, mv);
        proof {
            assert forall|j: int| 0 <= j < perm@.len() implies 0 <= #[trigger] perm@[j]
                < self.faces@.len() by {
                lemma_slot_perm_valid(self.size as int, mv, j);
            }
        }
        let v = permute_faces(&self.faces, &perm);
        let r = FaceletCube { size: self.size, faces: v };
        proof {
            assert forall|s: int| 0 <= s < r.model().entries.len() implies r.model().entries[s]
                == view_apply(self.model(), mv).entries[s] by {
                lemma_slot_perm_valid(self.size as int, mv, s);
            }
            assert(r.model().entries =~= view_apply(self.model(), mv).entries);
            assert(r.model() =~= view_apply(self.model(), mv));
        }
        r
    }

    fn apply_moves(&self, mvs: &Vec<Move>) -> (r: Self) {
        let mut cur = self.duplicate();
        let mut i: usize = 0;
        proof {
            assert(mvs@.take(0) =~= Seq::<Move>::empty());
        }
        while i < mvs.len()
            invariant
                self.wf(),
                forall|k: int| 0 <= k < mvs@.len() ==> (#[trigger] mvs@[k]).wf(self.model().size),
                0 <= i <= mvs@.len(),
                cur.wf(),
                cur.model() == view_apply_seq(self.model(), mvs@.take(i as int)),
                cur.model().size == self.model().size,
            decreases mvs@.len() - i,
        {
            let mv = mvs[i];
            cur = cur.apply_move(mv);
            proof {
                lemma_view_apply_seq_snoc(self.model(), mvs@, i as int);
            }
            i = i + 1;
        }
        proof {
            assert(mvs@.take(mvs@.len() as int) =~= mvs@);
        }
        cur
    }
}

/// Precomputed index permutations, one per move of a move set: the explicit
/// registry that replaces recomputing a move's permutation on every use.
pub struct MoveTable {
    size: CubeSize,
    entries: Vec<(Move, Vec<u16>)>,
}

impl MoveTable {
    /// The table's cube size.
    pub closed spec fn spec_size(&self) -> int {
        self.size as int
    }

    /// How many moves the table holds.
    pub closed spec fn move_count(&self) -> int {
        self.entries@.len() as int
    }

    /// The move behind a table index.
    pub closed spec fn move_at(&self, i: int) -> Move {
        self.entries@[i].0
    }

    /// Every entry holds its move's true permutation.
    pub closed spec fn wf(&self) -> bool {
        &&& valid_size(self.size as int)
        &&& forall|i: int|
            0 <= i < self.entries@.len() ==> (#[trigger] self.entries@[i]).0.wf(self.size as int)
        &&& forall|i: int|
            0 <= i < self.entries@.len() ==> (#[trigger] self.entries@[i]).1@.len() == 6
                * self.size * self.size
        &&& forall|i: int, j: int|
            0 <= i < self.entries@.len() && 0 <= j < self.entries@[i].1@.len()
                ==> (#[trigger] self.entries@[i].1@[j]) as int == spec_slot_perm(
                self.size as int,
                self.entries@[i].0,
                j,
            )
    }

    /// Build the table for a list of moves.
    pub fn for_moves(size: CubeSize, moves: &Vec<Move>) -> (r: Self)
        requires
            valid_size(size as int),
            forall|i: int| 0 <= i < moves@.len() ==> (#[trigger] moves@[i]).wf(size as int),
        ensures
            r.wf(),
            r.spec_size() == size as int,
            r.move_count() == moves@.len(),
            forall|i: int| 0 <= i < moves@.len() ==> r.move_at(i) == moves@[i],
    {
        let mut entries: Vec<(Move, Vec<u16>)> = Vec::new();
        let mut i: usize = 0;
        while i < moves.len()
            invariant
                valid_size(size as int),
                forall|k: int| 0 <= k < moves@.len() ==> (#[trigger] moves@[k]).wf(size as int),
                0 <= i <= moves@.len(),
                entries@.len() == i,
                forall|k: int| 0 <= k < i ==> (#[trigger] entries@[k]).0 == moves@[k],
                forall|k: int|
                    0 <= k < i ==> (#[trigger] entries@[k]).1@.len() == 6 * size * size,
                forall|k: int, j: int|
                    0 <= k < i && 0 <= j < entries@[k].1@.len()
                        ==> (#[trigger] entries@[k].1@[j]) as int == spec_slot_perm(
                        size as int,
                        entries@[k].0,
                        j,
                    ),
            decreases moves@.len() - i,
        {
            let mv = moves[i];
            let perm = compute_permutation(size, mv);
            entries.push((mv, perm));
            i = i + 1;
        }
        MoveTable { size, entries }
    }

    /// How many moves the table holds.
    pub fn len(&self) -> (r: usize)
        ensures
            r as int == self.move_count(),
    {
        self.entries.len()
    }

    /// The move behind a table index.
    pub fn move_of(&self, i: usize) -> (r: Move)
        requires
            (i as int) < self.move_count(),
        ensures
            r == self.move_at(i as int),
    {
        self.entries[i].0
    }
}

impl FaceletCube {
    /// Apply the table's move number `i` through its stored permutation.
    pub fn apply_via(&self, tbl: &MoveTable, i: usize) -> (r: Self)
        requires
            self.wf(),
            tbl.wf(),
            tbl.spec_size() == self.model().size,
            (i as int) < tbl.move_count(),
        ensures
            r.wf(),
            r.model() == view_apply(self.model(), tbl.move_at(i as int)),
    {
        let perm = &tbl.entries[i].1;
        proof {
            assert forall|j: int| 0 <= j < perm@.len() implies 0 <= #[trigger] perm@[j]
                < self.faces@.len() by {
                lemma_slot_perm_valid(self.size as int, tbl.entries@[i as int].0, j);
            }
        }
        let v = permute_faces(&self.faces, perm);
        let r = FaceletCube { size: self.size, faces: v };
        proof {
            let mv2 = tbl.entries@[i as int].0;
            assert forall|s: int| 0 <= s < r.model().entries.len() implies r.model().entries[s]
                == view_apply(self.model(), mv2).entries[s] by {
                lemma_slot_perm_valid(self.size as int, mv2, s);
            }
            assert(r.model().entries =~= view_apply(self.model(), mv2).entries);
            assert(r.model() =~= view_apply(self.model(), mv2));
        }
        r
    }
}

} // verus!
