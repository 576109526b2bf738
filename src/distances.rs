use vstd::prelude::*;

use crate::cell_index::CellIndex;
use crate::lattice::{
    Cell, STENCIL_SIZE, in_stencil, shift_in_range, stencil_cell, stencil_cell_spec,
};

verus! {

/// The nearest surface disk seen so far for one (node, collider) pair: the
/// surface sample it belongs to, and the order-preserving key of the absolute
/// signed distance from the node to the disk's plane (smaller key: nearer).
#[derive(Clone, Copy, Debug, PartialEq, Eq)]
pub struct WeightedDistance {
    pub sample: usize,
    pub magnitude: u64,
}

/// The per-collider records of one node of the distance field, indexed by collider.
pub struct DistanceNode {
    pub records: Vec<Option<WeightedDistance>>,
}

/// One surface disk reaching one node of its sample's stencil: the collider and
/// sample it belongs to, the node's position `offset` in that stencil, and the
/// order-preserving key of the absolute signed distance from the node.
#[derive(Clone, Copy, Debug, PartialEq, Eq)]
pub struct Splat {
    pub collider: usize,
    pub sample: usize,
    pub offset: usize,
    pub magnitude: u64,
}

/// The distance field: lattice cells near collider surfaces, each with a node.
pub struct DistanceField {
    pub index: CellIndex,
    pub nodes: Vec<DistanceNode>,
}

impl DistanceField {
    pub open spec fn view(&self) -> Seq<Cell> {
        self.index.view()
    }

    pub open spec fn wf(&self) -> bool {
        &&& self.index.wf()
        &&& self.nodes@.len() == self.index.view().len()
    }

    /// The record of node `s` for collider `k`; `None` where there is none.
    pub open spec fn record(&self, s: int, k: int) -> Option<WeightedDistance> {
        if 0 <= k < self.nodes@[s].records@.len() {
            self.nodes@[s].records@[k]
        } else {
            None
        }
    }

    /// `self` is `prior` with nodes appended: the nodes of `prior` keep their
    /// slots and their records, and each appended node has no record.
    pub open spec fn extends(&self, prior: DistanceField) -> bool {
        &&& prior.view().len() <= self.view().len()
        &&& forall|s: int|
            0 <= s < prior.view().len() ==> #[trigger] self.view()[s] == prior.view()[s]
                && self.nodes@[s] == prior.nodes@[s]
        &&& forall|s: int|
            prior.view().len() <= s < self.view().len() ==> (#[trigger] self.nodes@[s]).records@.len()
                == 0
    }

    /// Extending a field that extends another extends that other one.
    pub proof fn lemma_extends_trans(&self, mid: DistanceField, prior: DistanceField)
        requires
            self.extends(mid),
            mid.extends(prior),
        ensures
            self.extends(prior),
    {
        assert forall|s: int| prior.view().len() <= s < self.view().len() implies (
        #[trigger] self.nodes@[s]).records@.len() == 0 by {
            if s < mid.view().len() {
                assert(self.view()[s] == mid.view()[s]);
                assert(self.nodes@[s] == mid.nodes@[s]);
                assert(mid.nodes@[s].records@.len() == 0);
            }
        }
        assert forall|s: int| 0 <= s < prior.view().len() implies #[trigger] self.view()[s]
            == prior.view()[s] && self.nodes@[s] == prior.nodes@[s] by {
            assert(self.view()[s] == mid.view()[s]);
            assert(mid.view()[s] == prior.view()[s]);
        }
        assert(prior.view().len() <= self.view().len());
    }

    /// A field with no node.
    pub fn new() -> (r: DistanceField)
        ensures
            r.wf(),
            r.view() == Seq::<Cell>::empty(),
    {
        DistanceField { index: CellIndex::new(), nodes: Vec::new() }
    }

    /// Adds each node of the stencil at `shift` that is not in the field yet,
    /// with no record.
    pub fn add_stencil(&mut self, shift: Cell)
        requires
            old(self).wf(),
            shift_in_range(shift),
            old(self).view().len() + STENCIL_SIZE < usize::MAX,
        ensures
            final(self).wf(),
            final(self).view().len() <= old(self).view().len() + STENCIL_SIZE,
            forall|c: Cell| #[trigger]
                final(self).view().contains(c) <==> old(self).view().contains(c) || in_stencil(shift, c),
            final(self).extends(*old(self)),
    {
        let mut t: usize = 0;
        while t < STENCIL_SIZE
            invariant
                self.wf(),
                shift_in_range(shift),
                t <= STENCIL_SIZE,
                self.view().len() <= old(self).view().len() + t,
                old(self).view().len() + STENCIL_SIZE < usize::MAX,
                self.extends(*old(self)),
                forall|c: Cell| #[trigger]
                    self.view().contains(c) <==> old(self).view().contains(c) || exists|u: int|
                        0 <= u < t && #[trigger] stencil_cell_spec(shift, u) == c,
            decreases STENCIL_SIZE - t,
        {
            let c = stencil_cell(shift, t);
            let ghost before = self.view();
            let ghost prev = *self;
            let n = self.index.len();
            let s = self.index.insert(c);
            if s == n {
                self.nodes.push(DistanceNode { records: Vec::new() });
            }
            proof {
                assert forall|q: int| 0 <= q < prev.view().len() implies #[trigger] self.view()[q]
                    == prev.view()[q] && self.nodes@[q] == prev.nodes@[q] by {}
                assert forall|q: int| prev.view().len() <= q < self.view().len() implies (
                #[trigger] self.nodes@[q]).records@.len() == 0 by {}
                assert(self.extends(prev));
                self.lemma_extends_trans(prev, *old(self));
            }
            assert forall|d: Cell| #[trigger] self.view().contains(d) <==> old(self).view().contains(d)
                || exists|u: int| 0 <= u < t + 1 && #[trigger] stencil_cell_spec(shift, u) == d by {
                assert(self.view()[s as int] == c);
                if self.view().contains(d) && d != c {
                    let i = choose|i: int| 0 <= i < self.view().len() && self.view()[i] == d;
                    assert(before[i] == d);
                    assert(before.contains(d));
                }
                if before.contains(d) {
                    let i = choose|i: int| 0 <= i < before.len() && before[i] == d;
                    assert(self.view()[i] == d);
                }
                if exists|u: int| 0 <= u < t + 1 && #[trigger] stencil_cell_spec(shift, u) == d {
                    let u = choose|u: int| 0 <= u < t + 1 && #[trigger] stencil_cell_spec(shift, u) == d;
                    if u < t {
                        assert(stencil_cell_spec(shift, u) == d);
                    }
                }
                if d == c {
                    assert(stencil_cell_spec(shift, t as int) == d);
                }
            }
            t = t + 1;
        }
    }

    /// The slot of `c`, if `c` is a node of this field.
    pub fn find(&self, c: Cell) -> (r: Option<usize>)
        requires
            self.wf(),
        ensures
            match r {
                Some(s) => s < self.view().len() && self.view()[s as int] == c,
                None => !self.view().contains(c),
            },
    {
        self.index.find(c)
    }
}

/// Every sample shift of every collider has its whole stencil in range.
pub open spec fn samples_in_range(sample_shifts: Seq<Vec<Cell>>) -> bool {
    forall|k: int, i: int|
        0 <= k < sample_shifts.len() && 0 <= i < sample_shifts[k]@.len() ==> shift_in_range(
            #[trigger] sample_shifts[k]@[i],
        )
}

/// `c` lies in the stencil of some surface sample of some collider.
pub open spec fn covered_by_samples(sample_shifts: Seq<Vec<Cell>>, c: Cell) -> bool {
    exists|k: int, i: int|
        0 <= k < sample_shifts.len() && 0 <= i < sample_shifts[k]@.len() && in_stencil(
            #[trigger] sample_shifts[k]@[i],
            c,
        )
}

/// `c` lies in the stencil of a surface sample that comes before sample `i` of
/// collider `k` (colliders in order, then samples in order).
pub open spec fn covered_before(sample_shifts: Seq<Vec<Cell>>, k: int, i: int, c: Cell) -> bool {
    exists|k2: int, i2: int|
        0 <= k2 <= k && k2 < sample_shifts.len() && 0 <= i2 < sample_shifts[k2]@.len() && (k2 < k
            || i2 < i) && in_stencil(#[trigger] sample_shifts[k2]@[i2], c)
}

/// The number of samples of the colliders before collider `k`.
pub open spec fn samples_before(sample_shifts: Seq<Vec<Cell>>, k: int) -> int
    decreases k,
{
    if k <= 0 {
        0
    } else {
        samples_before(sample_shifts, k - 1) + sample_shifts[k - 1]@.len()
    }
}

pub proof fn lemma_samples_before_monotone(sample_shifts: Seq<Vec<Cell>>, k: int, m: int)
    requires
        0 <= k <= m,
    ensures
        samples_before(sample_shifts, k) <= samples_before(sample_shifts, m),
    decreases m - k,
{
    if k < m {
        lemma_samples_before_monotone(sample_shifts, k, m - 1);
    }
}

/// The node of a sample's stencil that `sp` reaches.
pub open spec fn splat_cell(sample_shifts: Seq<Vec<Cell>>, sp: Splat) -> Cell {
    stencil_cell_spec(sample_shifts[sp.collider as int]@[sp.sample as int], sp.offset as int)
}

/// `sp` names an existing collider, one of its samples and a stencil position.
pub open spec fn splat_valid(sample_shifts: Seq<Vec<Cell>>, sp: Splat) -> bool {
    &&& sp.collider < sample_shifts.len()
    &&& sp.sample < sample_shifts[sp.collider as int]@.len()
    &&& sp.offset < STENCIL_SIZE
}

/// `sp` reaches node `c` for collider `k`.
pub open spec fn lands(sample_shifts: Seq<Vec<Cell>>, sp: Splat, k: int, c: Cell) -> bool {
    sp.collider == k && splat_cell(sample_shifts, sp) == c
}

/// The record that the splat rule keeps for node `c` and collider `k` after the
/// first `upto` splats: none if no splat reached that pair; else the first of
/// the splats that reached it with the smallest magnitude.
pub open spec fn nearest_record(
    sample_shifts: Seq<Vec<Cell>>,
    splats: Seq<Splat>,
    upto: int,
    k: int,
    c: Cell,
    r: Option<WeightedDistance>,
) -> bool {
    match r {
        None => forall|j: int| 0 <= j < upto ==> !lands(sample_shifts, #[trigger] splats[j], k, c),
        Some(w) => exists|j: int|
            0 <= j < upto && lands(sample_shifts, #[trigger] splats[j], k, c) && w == (WeightedDistance {
                sample: splats[j].sample,
                magnitude: splats[j].magnitude,
            }) && (forall|i: int|
                0 <= i < upto && lands(sample_shifts, #[trigger] splats[i], k, c) ==> w.magnitude
                    <= splats[i].magnitude) && (forall|i: int|
                0 <= i < j && lands(sample_shifts, #[trigger] splats[i], k, c) ==> w.magnitude
                    < splats[i].magnitude),
    }
}

/// The record `r` after splat `sp` reached its pair: `sp` replaces the record
/// only if there was none or `sp` is strictly nearer, so a tie keeps `r`.
pub open spec fn nearer(r: Option<WeightedDistance>, sp: Splat) -> Option<WeightedDistance> {
    let fresh = WeightedDistance { sample: sp.sample, magnitude: sp.magnitude };
    match r {
        None => Some(fresh),
        Some(w) => if sp.magnitude < w.magnitude {
            Some(fresh)
        } else {
            Some(w)
        },
    }
}

/// The record of node `c` for collider `k`, starting from `r0`, after the
/// first `upto` splats were folded in by the nearest-wins rule.
pub open spec fn folded_record(
    sample_shifts: Seq<Vec<Cell>>,
    splats: Seq<Splat>,
    upto: int,
    k: int,
    c: Cell,
    r0: Option<WeightedDistance>,
) -> Option<WeightedDistance>
    decreases upto,
{
    if upto <= 0 {
        r0
    } else {
        let prev = folded_record(sample_shifts, splats, upto - 1, k, c, r0);
        if lands(sample_shifts, splats[upto - 1], k, c) {
            nearer(prev, splats[upto - 1])
        } else {
            prev
        }
    }
}

/// What folding splats into a record gives: a record that was there stays or
/// gets nearer; there is a record afterwards exactly when there was one or
/// some splat reached the pair; and from no record, the result is the first
/// splat of smallest magnitude that reached the pair.
pub proof fn lemma_folded_record(
    sample_shifts: Seq<Vec<Cell>>,
    splats: Seq<Splat>,
    upto: int,
    k: int,
    c: Cell,
    r0: Option<WeightedDistance>,
)
    requires
        0 <= upto <= splats.len(),
    ensures
        ({
            let r = folded_record(sample_shifts, splats, upto, k, c, r0);
            &&& r0 matches Some(w0) ==> r matches Some(w) && w.magnitude <= w0.magnitude
            &&& r is Some <==> (r0 is Some || exists|j: int|
                0 <= j < upto && lands(sample_shifts, #[trigger] splats[j], k, c))
            &&& r0 is None ==> nearest_record(sample_shifts, splats, upto, k, c, r)
        }),
    decreases upto,
{
    if upto > 0 {
        lemma_folded_record(sample_shifts, splats, upto - 1, k, c, r0);
        let prev = folded_record(sample_shifts, splats, upto - 1, k, c, r0);
        if r0 is None {
            lemma_nearest_record_step(sample_shifts, splats, upto - 1, k, c, prev);
        }
        if lands(sample_shifts, splats[upto - 1], k, c) {
            assert(lands(sample_shifts, splats[upto - 1], k, c));
        } else {
            assert forall|j: int|
                0 <= j < upto && lands(sample_shifts, #[trigger] splats[j], k, c) implies j < upto - 1 by {}
        }
    }
}

/// Folding one more splat into a record by the nearest-wins rule keeps it the
/// nearest record of the longer prefix.
pub proof fn lemma_nearest_record_step(
    sample_shifts: Seq<Vec<Cell>>,
    splats: Seq<Splat>,
    upto: int,
    k: int,
    c: Cell,
    r: Option<WeightedDistance>,
)
    requires
        0 <= upto < splats.len(),
        nearest_record(sample_shifts, splats, upto, k, c, r),
    ensures
        nearest_record(
            sample_shifts,
            splats,
            upto + 1,
            k,
            c,
            if lands(sample_shifts, splats[upto], k, c) {
                nearer(r, splats[upto])
            } else {
                r
            },
        ),
{
    let sp = splats[upto];
    if lands(sample_shifts, sp, k, c) {
        match r {
            None => {
                assert(lands(sample_shifts, splats[upto], k, c));
            },
            Some(w) => {
                let j = choose|j: int|
                    0 <= j < upto && lands(sample_shifts, #[trigger] splats[j], k, c) && w == (
                    WeightedDistance { sample: splats[j].sample, magnitude: splats[j].magnitude }) && (
                    forall|i: int|
                        0 <= i < upto && lands(sample_shifts, #[trigger] splats[i], k, c)
                            ==> w.magnitude <= splats[i].magnitude) && (forall|i: int|
                        0 <= i < j && lands(sample_shifts, #[trigger] splats[i], k, c) ==> w.magnitude
                            < splats[i].magnitude);
                if sp.magnitude < w.magnitude {
                    assert(lands(sample_shifts, splats[upto], k, c));
                } else {
                    assert(lands(sample_shifts, splats[j], k, c));
                }
            },
        }
    } else {
        match r {
            None => {},
            Some(w) => {
                let j = choose|j: int|
                    0 <= j < upto && lands(sample_shifts, #[trigger] splats[j], k, c) && w == (
                    WeightedDistance { sample: splats[j].sample, magnitude: splats[j].magnitude }) && (
                    forall|i: int|
                        0 <= i < upto && lands(sample_shifts, #[trigger] splats[i], k, c)
                            ==> w.magnitude <= splats[i].magnitude) && (forall|i: int|
                        0 <= i < j && lands(sample_shifts, #[trigger] splats[i], k, c) ==> w.magnitude
                            < splats[i].magnitude);
                assert(lands(sample_shifts, splats[j], k, c));
            },
        }
    }
}

} // verus!
