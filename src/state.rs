use vstd::prelude::*;

use crate::distances::{
    DistanceField, DistanceNode, Splat, WeightedDistance, covered_before, covered_by_samples,
    folded_record, lands, lemma_folded_record, lemma_samples_before_monotone, nearest_record, samples_before,
    samples_in_range, splat_cell, splat_valid,
};
use crate::cell_index::cell_key;
use crate::grid::{SparseGrid, rebuilt_from, valid_touches};
use crate::lattice::{Cell, STENCIL_SIZE, in_stencil};
use crate::sort::{gathered, inverse_permutation, lemma_permutation_onto, is_permutation, is_sorted_order, permute, sort_order};

verus! {

/// `new` is the record `old` with its sample renumbered through a sort
/// `order` (position `j` afterwards holds the sample that stood at `order[j]`):
/// a record of a sample within `order` now names that sample's new position;
/// other records, and the magnitude, are unchanged.
pub open spec fn renumbered(
    old: Option<WeightedDistance>,
    new: Option<WeightedDistance>,
    order: Seq<usize>,
) -> bool {
    match old {
        Some(w) => if w.sample < order.len() {
            new matches Some(v) && v.magnitude == w.magnitude && v.sample < order.len()
                && order[v.sample as int] == w.sample
        } else {
            new == old
        },
        None => new is None,
    }
}

/// The integer state of a simulation step: the particle sort maps, the shared
/// momentum grid, one momentum grid per collider, and the collider distance field.
pub struct State {
    /// `sort_map[i]`: the index that the particle now at position `i` had before any sort.
    pub sort_map: Vec<usize>,
    /// The inverse of `sort_map`: `reverse_sort_map[sort_map[i]] == i`.
    pub reverse_sort_map: Vec<usize>,
    pub grid_momentum: SparseGrid,
    pub grid_collider_momentums: Vec<SparseGrid>,
    pub grid_collider_distances: DistanceField,
}

impl State {
    pub open spec fn n_particles(&self) -> nat {
        self.sort_map@.len()
    }

    pub open spec fn n_colliders(&self) -> nat {
        self.grid_collider_momentums@.len()
    }

    /// The sort maps are a permutation and its inverse; every grid is well formed.
    pub open spec fn wf(&self) -> bool {
        &&& is_permutation(self.sort_map@, self.sort_map@.len())
        &&& self.reverse_sort_map@.len() == self.sort_map@.len()
        &&& forall|i: int|
            0 <= i < self.sort_map@.len() ==> #[trigger] self.reverse_sort_map@[self.sort_map@[i] as int]
                == i
        &&& self.grid_momentum.wf()
        &&& forall|k: int|
            0 <= k < self.grid_collider_momentums@.len() ==> (#[trigger] self.grid_collider_momentums@[k]).wf()
        &&& self.grid_collider_distances.wf()
    }

    /// In every well-formed state, and so after every topology rebuild, the
    /// slots of the shared grid and of each collider's grid number its nodes
    /// contiguously `0..n`, with no gap and no node numbered twice.
    pub proof fn lemma_grid_slots_contiguous(&self)
        requires
            self.wf(),
        ensures
            self.grid_momentum.view().no_duplicates(),
            self.grid_momentum.index.slots@.len() == self.grid_momentum.view().len(),
            forall|s: int|
                0 <= s < self.grid_momentum.view().len() ==> self.grid_momentum.index.slots@[cell_key(
                    #[trigger] self.grid_momentum.view()[s],
                ) as i128] == s,
            forall|k: i128| #[trigger]
                self.grid_momentum.index.slots@.contains_key(k) ==> self.grid_momentum.index.slots@[k]
                    < self.grid_momentum.view().len(),
            forall|g: int|
                0 <= g < self.n_colliders() ==> {
                    let grid = #[trigger] self.grid_collider_momentums@[g];
                    &&& grid.view().no_duplicates()
                    &&& grid.index.slots@.len() == grid.view().len()
                    &&& forall|s: int|
                        0 <= s < grid.view().len() ==> grid.index.slots@[cell_key(
                            #[trigger] grid.view()[s],
                        ) as i128] == s
                    &&& forall|k: i128| #[trigger]
                        grid.index.slots@.contains_key(k) ==> grid.index.slots@[k] < grid.view().len()
                },
    {
        self.grid_momentum.index.lemma_slots_contiguous();
        assert forall|g: int| 0 <= g < self.n_colliders() implies {
            let grid = #[trigger] self.grid_collider_momentums@[g];
            &&& grid.view().no_duplicates()
            &&& grid.index.slots@.len() == grid.view().len()
            &&& forall|s: int|
                0 <= s < grid.view().len() ==> grid.index.slots@[cell_key(
                    #[trigger] grid.view()[s],
                ) as i128] == s
            &&& forall|k: i128| #[trigger]
                grid.index.slots@.contains_key(k) ==> grid.index.slots@[k] < grid.view().len()
        } by {
            self.grid_collider_momentums@[g].index.lemma_slots_contiguous();
        }
    }

    /// A state for `n_particles` particles in their initial order and
    /// `n_colliders` colliders, with empty grids.
    pub fn new(n_particles: usize, n_colliders: usize) -> (r: State)
        ensures
            r.wf(),
            r.n_particles() == n_particles,
            r.n_colliders() == n_colliders,
            forall|i: int| 0 <= i < n_particles ==> #[trigger] r.sort_map@[i] == i,
            r.grid_momentum.view().len() == 0,
            forall|k: int| 0 <= k < n_colliders ==> (#[trigger] r.grid_collider_momentums@[k]).view().len() == 0,
            r.grid_collider_distances.view().len() == 0,
    {
        let mut sort_map: Vec<usize> = Vec::new();
        let mut i: usize = 0;
        while i < n_particles
            invariant
                i <= n_particles,
                sort_map@.len() == i,
                forall|j: int| 0 <= j < i ==> #[trigger] sort_map@[j] == j,
            decreases n_particles - i,
        {
            sort_map.push(i);
            i = i + 1;
        }
        let reverse_sort_map = inverse_permutation(&sort_map);
        let mut grids: Vec<SparseGrid> = Vec::new();
        let mut k: usize = 0;
        while k < n_colliders
            invariant
                k <= n_colliders,
                grids@.len() == k,
                forall|m: int| 0 <= m < k ==> (#[trigger] grids@[m]).wf() && grids@[m].view().len() == 0,
            decreases n_colliders - k,
        {
            grids.push(SparseGrid::new());
            k = k + 1;
        }
        State {
            sort_map,
            reverse_sort_map,
            grid_momentum: SparseGrid::new(),
            grid_collider_momentums: grids,
            grid_collider_distances: DistanceField::new(),
        }
    }

    /// Spatially sorts the particles, given each particle's cell key (in its
    /// current position). Returns the order: position `i` after the sort holds
    /// the particle that stood at `order[i]`, by ascending cell, equal cells
    /// keeping their relative order; `sort_map` follows the particles and
    /// `reverse_sort_map` becomes its inverse. Keys that are not one per
    /// particle give `None` and change nothing.
    pub fn sort(&mut self, keys: &Vec<Cell>) -> (r: Option<Vec<usize>>)
        requires
            old(self).wf(),
        ensures
            final(self).wf(),
            keys@.len() != old(self).n_particles() ==> r.is_none() && *final(self) == *old(self),
            keys@.len() == old(self).n_particles() ==> match r {
                Some(order) => {
                    &&& is_sorted_order(keys@, order@)
                    &&& final(self).sort_map@ == gathered(order@, old(self).sort_map@)
                    &&& forall|i: int|
                        0 <= i < final(self).sort_map@.len() ==> #[trigger] final(self).reverse_sort_map@[
                            final(self).sort_map@[i] as int] == i
                    &&& final(self).grid_momentum == old(self).grid_momentum
                    &&& final(self).grid_collider_momentums == old(self).grid_collider_momentums
                    &&& final(self).grid_collider_distances == old(self).grid_collider_distances
                },
                None => false,
            },
    {
        if keys.len() != self.sort_map.len() {
            return None;
        }
        let order = sort_order(keys);
        match permute(&order, &self.sort_map) {
            Some(m) => {
                proof {
                    let old_map = self.sort_map@;
                    assert forall|a: int, b: int|
                        0 <= a < m@.len() && 0 <= b < m@.len() && a != b implies m@[a] != m@[b] by {
                        assert(order@[a] != order@[b]);
                        assert(m@[a] == old_map[order@[a] as int]);
                        assert(m@[b] == old_map[order@[b] as int]);
                    }
                }
                self.reverse_sort_map = inverse_permutation(&m);
                self.sort_map = m;
                Some(order)
            },
            None => None,
        }
    }

    /// Spatially sorts the surface samples of collider `k`, given each
    /// sample's cell key, and returns the order: position `i` afterwards
    /// holds the sample that stood at `order[i]`, by ascending cell, equal
    /// cells keeping their relative order. The records of collider `k` in the
    /// distance field name their sample by position, so each is renumbered to
    /// where its sample now stands; a record whose sample lies beyond the
    /// keys is left as it is. Nothing else changes.
    pub fn sort_collider_samples(&mut self, k: usize, keys: &Vec<Cell>) -> (order: Vec<usize>)
        requires
            old(self).wf(),
            k < old(self).n_colliders(),
        ensures
            final(self).wf(),
            is_sorted_order(keys@, order@),
            final(self).grid_collider_distances.index == old(self).grid_collider_distances.index,
            final(self).grid_collider_distances.nodes@.len() == old(self).grid_collider_distances.nodes@.len(),
            forall|s: int|
                0 <= s < final(self).grid_collider_distances.nodes@.len() ==> (
                #[trigger] final(self).grid_collider_distances.nodes@[s]).records@.len() == old(
                    self,
                ).grid_collider_distances.nodes@[s].records@.len(),
            forall|s: int, k2: int|
                0 <= s < final(self).grid_collider_distances.nodes@.len() && k2 != k ==> (
                #[trigger] final(self).grid_collider_distances.record(s, k2)) == old(
                    self,
                ).grid_collider_distances.record(s, k2),
            forall|s: int|
                0 <= s < final(self).grid_collider_distances.nodes@.len() ==> renumbered(
                    old(self).grid_collider_distances.record(s, k as int),
                    #[trigger] final(self).grid_collider_distances.record(s, k as int),
                    order@,
                ),
            final(self).sort_map == old(self).sort_map,
            final(self).reverse_sort_map == old(self).reverse_sort_map,
            final(self).grid_momentum == old(self).grid_momentum,
            final(self).grid_collider_momentums == old(self).grid_collider_momentums,
    {
        let order = sort_order(keys);
        let inv = inverse_permutation(&order);
        let n = order.len();
        proof {
            assert forall|x: int| 0 <= x < n implies #[trigger] inv@[x] < n && order@[inv@[x] as int]
                == x by {
                lemma_permutation_onto(order@, x);
                let j = choose|j: int| 0 <= j < order@.len() && order@[j] == x;
                assert(inv@[order@[j] as int] == j);
            }
        }
        let ghost start = self.grid_collider_distances;
        let n_nodes = self.grid_collider_distances.nodes.len();
        let mut s: usize = 0;
        while s < n_nodes
            invariant
                self.wf(),
                k < self.n_colliders(),
                n == order@.len(),
                inv@.len() == n,
                forall|x: int| 0 <= x < n ==> #[trigger] inv@[x] < n && order@[inv@[x] as int] == x,
                n_nodes == start.nodes@.len(),
                s <= n_nodes,
                self.grid_collider_distances.index == start.index,
                self.grid_collider_distances.nodes@.len() == n_nodes,
                forall|q: int|
                    0 <= q < n_nodes ==> (#[trigger] self.grid_collider_distances.nodes@[q]).records@.len()
                        == start.nodes@[q].records@.len(),
                forall|q: int|
                    s <= q < n_nodes ==> #[trigger] self.grid_collider_distances.nodes@[q] == start.nodes@[q],
                forall|q: int, k2: int|
                    0 <= q < n_nodes && k2 != k ==> (#[trigger] self.grid_collider_distances.record(q, k2))
                        == start.record(q, k2),
                forall|q: int|
                    0 <= q < s ==> renumbered(
                        start.record(q, k as int),
                        #[trigger] self.grid_collider_distances.record(q, k as int),
                        order@,
                    ),
                self.sort_map == old(self).sort_map,
                self.reverse_sort_map == old(self).reverse_sort_map,
                self.grid_momentum == old(self).grid_momentum,
                self.grid_collider_momentums == old(self).grid_collider_momentums,
            decreases n_nodes - s,
        {
            let ghost before = self.grid_collider_distances;
            assert(before.nodes@[s as int] == start.nodes@[s as int]);
            if k < self.grid_collider_distances.nodes[s].records.len() {
                match self.grid_collider_distances.nodes[s].records[k] {
                    Some(w) => {
                        if w.sample < n {
                            let moved = WeightedDistance { sample: inv[w.sample], magnitude: w.magnitude };
                            self.grid_collider_distances.nodes[s].records.set(k, Some(moved));
                        }
                    },
                    None => {},
                }
            }
            assert forall|q: int, k2: int|
                0 <= q < n_nodes && k2 != k implies (#[trigger] self.grid_collider_distances.record(q, k2))
                    == start.record(q, k2) by {
                assert(before.record(q, k2) == start.record(q, k2));
            }
            assert forall|q: int|
                0 <= q < s + 1 implies renumbered(
                    start.record(q, k as int),
                    #[trigger] self.grid_collider_distances.record(q, k as int),
                    order@,
                ) by {
                if q == s {
                    assert(before.record(q, k as int) == start.record(q, k as int));
                    if let Some(w) = start.record(q, k as int) {
                        if w.sample < n {
                            assert(inv@[w.sample as int] < n);
                        }
                    }
                }
                if q < s {
                    assert(self.grid_collider_distances.nodes@[q] == before.nodes@[q]);
                }
            }
            s = s + 1;
        }
        order
    }

    /// Rebuilds the grid topology for this step. Per particle, `shifts` gives
    /// the lowest corner of its stencil and `claims` the collider that claims
    /// each of its stencil nodes, if any. Every grid drops the nodes that no
    /// particle reached at the last rebuild; each node a particle reaches goes
    /// to the grid of the collider that claims it, or else to the shared grid,
    /// and lists that particle among its contributors. Slots are renumbered.
    pub fn update_momentum_maps(&mut self, shifts: &Vec<Cell>, claims: &Vec<Vec<Option<usize>>>)
        requires
            old(self).wf(),
            valid_touches(shifts@, claims@, old(self).n_colliders()),
            old(self).grid_momentum.view().len() + STENCIL_SIZE * shifts@.len() < usize::MAX,
            forall|k: int|
                0 <= k < old(self).n_colliders() ==> (#[trigger] old(self).grid_collider_momentums@[k]).view().len()
                    + STENCIL_SIZE * shifts@.len() < usize::MAX,
        ensures
            final(self).wf(),
            rebuilt_from(final(self).grid_momentum, old(self).grid_momentum, shifts@, claims@, None),
            final(self).n_colliders() == old(self).n_colliders(),
            forall|k: int|
                0 <= k < old(self).n_colliders() ==> rebuilt_from(
                    #[trigger] final(self).grid_collider_momentums@[k],
                    old(self).grid_collider_momentums@[k],
                    shifts@,
                    claims@,
                    Some(k as usize),
                ),
            final(self).sort_map == old(self).sort_map,
            final(self).reverse_sort_map == old(self).reverse_sort_map,
            final(self).grid_collider_distances == old(self).grid_collider_distances,
    {
        let common = self.grid_momentum.rebuilt(shifts, claims, None);
        let n = self.grid_collider_momentums.len();
        let mut grids: Vec<SparseGrid> = Vec::new();
        let mut k: usize = 0;
        while k < n
            invariant
                self.wf(),
                n == self.n_colliders(),
                valid_touches(shifts@, claims@, self.n_colliders()),
                forall|m: int|
                    0 <= m < n ==> (#[trigger] self.grid_collider_momentums@[m]).view().len()
                        + STENCIL_SIZE * shifts@.len() < usize::MAX,
                k <= n,
                grids@.len() == k,
                forall|m: int|
                    0 <= m < k ==> rebuilt_from(
                        #[trigger] grids@[m],
                        self.grid_collider_momentums@[m],
                        shifts@,
                        claims@,
                        Some(m as usize),
                    ),
            decreases n - k,
        {
            let g = self.grid_collider_momentums[k].rebuilt(shifts, claims, Some(k));
            grids.push(g);
            k = k + 1;
        }
        self.grid_momentum = common;
        self.grid_collider_momentums = grids;
    }

    /// Adds to the distance field every node of the stencil of every surface
    /// sample that is not there yet; `sample_shifts[k][i]` is the lowest
    /// corner of the stencil of sample `i` of collider `k`.
    fn scatter_collider_distances_create_entries(&mut self, sample_shifts: &Vec<Vec<Cell>>)
        requires
            old(self).wf(),
            samples_in_range(sample_shifts@),
            old(self).grid_collider_distances.view().len() + STENCIL_SIZE * samples_before(
                sample_shifts@,
                sample_shifts@.len() as int,
            ) < usize::MAX,
        ensures
            final(self).wf(),
            forall|c: Cell| #[trigger]
                final(self).grid_collider_distances.view().contains(c) <==> old(
                    self,
                ).grid_collider_distances.view().contains(c) || covered_by_samples(sample_shifts@, c),
            final(self).grid_collider_distances.extends(old(self).grid_collider_distances),
            final(self).grid_collider_distances.view().len() <= old(
                self,
            ).grid_collider_distances.view().len() + STENCIL_SIZE * samples_before(
                sample_shifts@,
                sample_shifts@.len() as int,
            ),
            final(self).sort_map == old(self).sort_map,
            final(self).reverse_sort_map == old(self).reverse_sort_map,
            final(self).grid_momentum == old(self).grid_momentum,
            final(self).grid_collider_momentums == old(self).grid_collider_momentums,
    {
        let ghost ss = sample_shifts@;
        let ghost total = samples_before(ss, ss.len() as int);
        let ghost base = old(self).grid_collider_distances.view();
        let n = sample_shifts.len();
        let mut k: usize = 0;
        while k < n
            invariant
                self.wf(),
                ss == sample_shifts@,
                n == ss.len(),
                samples_in_range(ss),
                k <= n,
                base.len() + STENCIL_SIZE * total < usize::MAX,
                total == samples_before(ss, n as int),
                self.grid_collider_distances.view().len() <= base.len() + STENCIL_SIZE * samples_before(ss, k as int),
                forall|c: Cell| #[trigger]
                    self.grid_collider_distances.view().contains(c) <==> base.contains(c)
                        || covered_before(ss, k as int, 0, c),
                self.grid_collider_distances.extends(old(self).grid_collider_distances),
                self.sort_map == old(self).sort_map,
                self.reverse_sort_map == old(self).reverse_sort_map,
                self.grid_momentum == old(self).grid_momentum,
                self.grid_collider_momentums == old(self).grid_collider_momentums,
            decreases n - k,
        {
            let m = sample_shifts[k].len();
            proof {
                lemma_samples_before_monotone(ss, k as int + 1, n as int);
            }
            let mut i: usize = 0;
            while i < m
                invariant
                    self.wf(),
                    ss == sample_shifts@,
                    n == ss.len(),
                    samples_in_range(ss),
                    k < n,
                    m == ss[k as int]@.len(),
                    i <= m,
                    base.len() + STENCIL_SIZE * total < usize::MAX,
                    samples_before(ss, k as int + 1) <= total,
                    self.grid_collider_distances.view().len() <= base.len() + STENCIL_SIZE * (
                    samples_before(ss, k as int) + i),
                    forall|c: Cell| #[trigger]
                        self.grid_collider_distances.view().contains(c) <==> base.contains(c)
                            || covered_before(ss, k as int, i as int, c),
                    self.grid_collider_distances.extends(old(self).grid_collider_distances),
                    self.sort_map == old(self).sort_map,
                    self.reverse_sort_map == old(self).reverse_sort_map,
                    self.grid_momentum == old(self).grid_momentum,
                    self.grid_collider_momentums == old(self).grid_collider_momentums,
                decreases m - i,
            {
                let shift = sample_shifts[k][i];
                assert(self.grid_collider_distances.view().len() + STENCIL_SIZE < usize::MAX) by (nonlinear_arith)
                    requires
                        self.grid_collider_distances.view().len() <= base.len() + STENCIL_SIZE * (
                        samples_before(ss, k as int) + i),
                        i < m,
                        samples_before(ss, k as int + 1) == samples_before(ss, k as int) + m,
                        samples_before(ss, k as int + 1) <= total,
                        base.len() + STENCIL_SIZE * total < usize::MAX,
                ;
                let ghost mid = self.grid_collider_distances;
                self.grid_collider_distances.add_stencil(shift);
                proof {
                    self.grid_collider_distances.lemma_extends_trans(mid, old(self).grid_collider_distances);
                }
                assert forall|c: Cell| #[trigger]
                    self.grid_collider_distances.view().contains(c) <==> base.contains(c)
                        || covered_before(ss, k as int, i + 1, c) by {
                    if covered_before(ss, k as int, i + 1, c) {
                        let (k2, i2) = choose|k2: int, i2: int|
                            0 <= k2 <= k && k2 < ss.len() && 0 <= i2 < ss[k2]@.len() && (k2 < k
                                || i2 < i + 1) && in_stencil(#[trigger] ss[k2]@[i2], c);
                        if k2 < k || i2 < i {
                            assert(covered_before(ss, k as int, i as int, c));
                        }
                    }
                    if covered_before(ss, k as int, i as int, c) {
                        let (k2, i2) = choose|k2: int, i2: int|
                            0 <= k2 <= k && k2 < ss.len() && 0 <= i2 < ss[k2]@.len() && (k2 < k
                                || i2 < i) && in_stencil(#[trigger] ss[k2]@[i2], c);
                        assert(in_stencil(ss[k2]@[i2], c));
                    }
                    if in_stencil(shift, c) {
                        assert(in_stencil(ss[k as int]@[i as int], c));
                    }
                }
                i = i + 1;
            }
            assert forall|c: Cell| #[trigger]
                self.grid_collider_distances.view().contains(c) <==> base.contains(c)
                    || covered_before(ss, k as int + 1, 0, c) by {
                if covered_before(ss, k as int + 1, 0, c) {
                    let (k2, i2) = choose|k2: int, i2: int|
                        0 <= k2 <= k + 1 && k2 < ss.len() && 0 <= i2 < ss[k2]@.len() && (k2 < k + 1
                            || i2 < 0) && in_stencil(#[trigger] ss[k2]@[i2], c);
                    assert(in_stencil(ss[k2]@[i2], c));
                }
                if covered_before(ss, k as int, m as int, c) {
                    let (k2, i2) = choose|k2: int, i2: int|
                        0 <= k2 <= k && k2 < ss.len() && 0 <= i2 < ss[k2]@.len() && (k2 < k
                            || i2 < m) && in_stencil(#[trigger] ss[k2]@[i2], c);
                    assert(in_stencil(ss[k2]@[i2], c));
                }
            }
            k = k + 1;
        }
        assert forall|c: Cell| covered_before(ss, n as int, 0, c) <==> #[trigger] covered_by_samples(ss, c) by {
            if covered_by_samples(ss, c) {
                let (k2, i2) = choose|k2: int, i2: int|
                    0 <= k2 < ss.len() && 0 <= i2 < ss[k2]@.len() && in_stencil(#[trigger] ss[k2]@[i2], c);
                assert(in_stencil(ss[k2]@[i2], c));
            }
            if covered_before(ss, n as int, 0, c) {
                let (k2, i2) = choose|k2: int, i2: int|
                    0 <= k2 <= n && k2 < ss.len() && 0 <= i2 < ss[k2]@.len() && (k2 < n
                        || i2 < 0) && in_stencil(#[trigger] ss[k2]@[i2], c);
                assert(in_stencil(ss[k2]@[i2], c));
            }
        }
    }

    /// Clears every node of the distance field: each gets one empty record per collider.
    pub fn scatter_collider_distances_reset(&mut self)
        requires
            old(self).wf(),
        ensures
            final(self).wf(),
            final(self).grid_collider_distances.index == old(self).grid_collider_distances.index,
            forall|s: int|
                0 <= s < final(self).grid_collider_distances.nodes@.len() ==> (
                #[trigger] final(self).grid_collider_distances.nodes@[s]).records@ == Seq::new(
                    old(self).n_colliders(),
                    |k: int| None::<WeightedDistance>,
                ),
            final(self).sort_map == old(self).sort_map,
            final(self).reverse_sort_map == old(self).reverse_sort_map,
            final(self).grid_momentum == old(self).grid_momentum,
            final(self).grid_collider_momentums == old(self).grid_collider_momentums,
    {
        let n_colliders = self.grid_collider_momentums.len();
        let n = self.grid_collider_distances.nodes.len();
        let ghost empty = Seq::new(n_colliders as nat, |k: int| None::<WeightedDistance>);
        let mut s: usize = 0;
        while s < n
            invariant
                self.wf(),
                n == self.grid_collider_distances.nodes@.len(),
                n_colliders == self.n_colliders(),
                empty == Seq::new(n_colliders as nat, |k: int| None::<WeightedDistance>),
                s <= n,
                self.grid_collider_distances.index == old(self).grid_collider_distances.index,
                forall|q: int| 0 <= q < s ==> (#[trigger] self.grid_collider_distances.nodes@[q]).records@ == empty,
                self.sort_map == old(self).sort_map,
                self.reverse_sort_map == old(self).reverse_sort_map,
                self.grid_momentum == old(self).grid_momentum,
                self.grid_collider_momentums == old(self).grid_collider_momentums,
            decreases n - s,
        {
            let mut records: Vec<Option<WeightedDistance>> = Vec::new();
            let mut k: usize = 0;
            while k < n_colliders
                invariant
                    k <= n_colliders,
                    records@ == empty.take(k as int),
                    empty == Seq::new(n_colliders as nat, |k: int| None::<WeightedDistance>),
                decreases n_colliders - k,
            {
                records.push(None);
                k = k + 1;
            }
            assert(records@ =~= empty);
            self.grid_collider_distances.nodes.set(s, DistanceNode { records });
            s = s + 1;
        }
    }

    /// Folds each splat, in order, into the record of the node it reaches for
    /// its collider, by the nearest-wins rule: a record is replaced only by a
    /// splat of strictly smaller magnitude, and a pair without a record takes
    /// the first splat that reaches it. Records already there take part.
    fn scatter_collider_distances_scatter(&mut self, sample_shifts: &Vec<Vec<Cell>>, splats: &Vec<Splat>)
        requires
            old(self).wf(),
            samples_in_range(sample_shifts@),
            forall|j: int| 0 <= j < splats@.len() ==> splat_valid(sample_shifts@, #[trigger] splats@[j]),
            forall|j: int|
                0 <= j < splats@.len() ==> old(self).grid_collider_distances.view().contains(
                    splat_cell(sample_shifts@, #[trigger] splats@[j]),
                ),
        ensures
            final(self).wf(),
            final(self).grid_collider_distances.index == old(self).grid_collider_distances.index,
            forall|s: int|
                0 <= s < final(self).grid_collider_distances.nodes@.len() && old(
                    self,
                ).grid_collider_distances.nodes@[s].records@.len() >= sample_shifts@.len() ==> (
                #[trigger] final(self).grid_collider_distances.nodes@[s]).records@.len() == old(
                    self,
                ).grid_collider_distances.nodes@[s].records@.len(),
            forall|s: int, k: int|
                0 <= s < final(self).grid_collider_distances.view().len() ==> (
                #[trigger] final(self).grid_collider_distances.record(s, k)) == folded_record(
                    sample_shifts@,
                    splats@,
                    splats@.len() as int,
                    k,
                    final(self).grid_collider_distances.view()[s],
                    old(self).grid_collider_distances.record(s, k),
                ),
            forall|s: int, k: int|
                0 <= s < final(self).grid_collider_distances.view().len() ==> (old(
                    self,
                ).grid_collider_distances.record(s, k) matches Some(w0) ==> (
                #[trigger] final(self).grid_collider_distances.record(s, k)) matches Some(w)
                    && w.magnitude <= w0.magnitude),
            forall|s: int, k: int|
                0 <= s < final(self).grid_collider_distances.view().len() && old(
                    self,
                ).grid_collider_distances.record(s, k) is None ==> ((
                #[trigger] final(self).grid_collider_distances.record(s, k)) is Some <==> exists|j: int|
                    0 <= j < splats@.len() && lands(
                        sample_shifts@,
                        #[trigger] splats@[j],
                        k,
                        final(self).grid_collider_distances.view()[s],
                    )),
            final(self).sort_map == old(self).sort_map,
            final(self).reverse_sort_map == old(self).reverse_sort_map,
            final(self).grid_momentum == old(self).grid_momentum,
            final(self).grid_collider_momentums == old(self).grid_collider_momentums,
    {
        let ghost ss = sample_shifts@;
        let ghost sp = splats@;
        let ghost start = old(self).grid_collider_distances;
        let mut j: usize = 0;
        while j < splats.len()
            invariant
                self.wf(),
                ss == sample_shifts@,
                sp == splats@,
                samples_in_range(ss),
                j <= sp.len(),
                forall|q: int| 0 <= q < sp.len() ==> splat_valid(ss, #[trigger] sp[q]),
                forall|q: int|
                    0 <= q < sp.len() ==> self.grid_collider_distances.view().contains(
                        splat_cell(ss, #[trigger] sp[q]),
                    ),
                self.grid_collider_distances.index == start.index,
                self.grid_collider_distances.nodes@.len() == start.nodes@.len(),
                forall|s: int|
                    0 <= s < self.grid_collider_distances.nodes@.len() && start.nodes@[s].records@.len()
                        >= ss.len() ==> (#[trigger] self.grid_collider_distances.nodes@[s]).records@.len()
                        == start.nodes@[s].records@.len(),
                forall|s: int, k: int|
                    0 <= s < self.grid_collider_distances.view().len() ==> #[trigger] self.grid_collider_distances.record(s, k)
                        == folded_record(ss, sp, j as int, k, start.view()[s], start.record(s, k)),
                self.sort_map == old(self).sort_map,
                self.reverse_sort_map == old(self).reverse_sort_map,
                self.grid_momentum == old(self).grid_momentum,
                self.grid_collider_momentums == old(self).grid_collider_momentums,
            decreases sp.len() - j,
        {
            let splat = splats[j];
            assert(splat_valid(ss, sp[j as int]));
            let shift = sample_shifts[splat.collider][splat.sample];
            let c = crate::lattice::stencil_cell(shift, splat.offset);
            assert(c == splat_cell(ss, sp[j as int]));
            let ghost field = self.grid_collider_distances;
            match self.grid_collider_distances.find(c) {
                Some(slot) => {
                    let k = splat.collider;
                    let n_samples_lists = sample_shifts.len();
                    assert(k < n_samples_lists);
                    let mut len = self.grid_collider_distances.nodes[slot].records.len();
                    while len <= k
                        invariant
                            self.wf(),
                            slot < self.grid_collider_distances.nodes@.len(),
                            k < ss.len(),
                            ss == sample_shifts@,
                            k < usize::MAX,
                            field.nodes@[slot as int].records@.len() > k ==> len
                                == field.nodes@[slot as int].records@.len(),
                            len == self.grid_collider_distances.nodes@[slot as int].records@.len(),
                            self.grid_collider_distances.index == field.index,
                            self.grid_collider_distances.nodes@.len() == field.nodes@.len(),
                            forall|s: int|
                                0 <= s < field.nodes@.len() && s != slot ==> #[trigger] self.grid_collider_distances.nodes@[s]
                                    == field.nodes@[s],
                            self.grid_collider_distances.nodes@[slot as int].records@.len() >= field.nodes@[slot as int].records@.len(),
                            forall|k2: int| #[trigger] self.grid_collider_distances.record(slot as int, k2)
                                == field.record(slot as int, k2),
                            self.sort_map == old(self).sort_map,
                            self.reverse_sort_map == old(self).reverse_sort_map,
                            self.grid_momentum == old(self).grid_momentum,
                            self.grid_collider_momentums == old(self).grid_collider_momentums,
                        decreases k + 1 - len,
                    {
                        let ghost inner = self.grid_collider_distances;
                        self.grid_collider_distances.nodes[slot].records.push(None);
                        assert forall|k2: int| #[trigger] self.grid_collider_distances.record(slot as int, k2)
                            == field.record(slot as int, k2) by {
                            assert(inner.record(slot as int, k2) == field.record(slot as int, k2));
                        }
                        len = len + 1;
                    }
                    let current = self.grid_collider_distances.nodes[slot].records[k];
                    let fresh = WeightedDistance { sample: splat.sample, magnitude: splat.magnitude };
                    let next = match current {
                        None => Some(fresh),
                        Some(w) => if splat.magnitude < w.magnitude {
                            Some(fresh)
                        } else {
                            Some(w)
                        },
                    };
                    let ghost padded = self.grid_collider_distances;
                    self.grid_collider_distances.nodes[slot].records.set(k, next);
                    proof {
                        field.index.lemma_slots_contiguous();
                        assert(field.view()[slot as int] == c);
                        assert(padded.record(slot as int, k as int) == field.record(slot as int, k as int));
                        assert forall|s: int, k2: int|
                            0 <= s < self.grid_collider_distances.view().len() implies #[trigger] self.grid_collider_distances.record(s, k2)
                                == folded_record(ss, sp, j + 1, k2, start.view()[s], start.record(s, k2)) by {
                            assert(start.view()[s] == field.view()[s]);
                            if s != slot {
                                assert(field.view()[s] != c);
                                assert(self.grid_collider_distances.nodes@[s] == field.nodes@[s]);
                            } else {
                                assert(padded.record(s, k2) == field.record(s, k2));
                            }
                        }
                        assert forall|s: int|
                            0 <= s < self.grid_collider_distances.nodes@.len() && start.nodes@[s].records@.len()
                                >= ss.len() implies (#[trigger] self.grid_collider_distances.nodes@[s]).records@.len()
                                == start.nodes@[s].records@.len() by {
                            if s == slot {
                                assert(k < ss.len());
                                assert(field.nodes@[s].records@.len() == start.nodes@[s].records@.len());
                                assert(padded.nodes@[s].records@.len() == field.nodes@[s].records@.len());
                            } else {
                                assert(self.grid_collider_distances.nodes@[s] == field.nodes@[s]);
                            }
                        }
                    }
                },
                None => {},
            }
            j = j + 1;
        }
        proof {
            assert forall|s: int, k: int| 0 <= s < self.grid_collider_distances.view().len() implies (
            start.record(s, k) matches Some(w0) ==> (#[trigger] self.grid_collider_distances.record(
                s,
                k,
            )) matches Some(w) && w.magnitude <= w0.magnitude) && (start.record(s, k) is None ==> (
            self.grid_collider_distances.record(s, k) is Some <==> exists|j: int|
                0 <= j < sp.len() && lands(ss, #[trigger] sp[j], k, start.view()[s]))) by {
                lemma_folded_record(ss, sp, sp.len() as int, k, start.view()[s], start.record(s, k));
            }
        }
    }

    /// Splats the colliders' surface samples into the distance field. First
    /// every node of every sample's stencil is added if absent
    /// (`sample_shifts[k][i]`: the lowest corner of the stencil of sample `i`
    /// of collider `k`), then all records are cleared, then each splat (an
    /// oriented disk that reaches a node of its sample's stencil) is folded in:
    /// each (node, collider) pair ends with the first splat of smallest
    /// magnitude that reached it, or with no record if none did.
    pub fn scatter_collider_distances(&mut self, sample_shifts: &Vec<Vec<Cell>>, splats: &Vec<Splat>)
        requires
            old(self).wf(),
            sample_shifts@.len() == old(self).n_colliders(),
            samples_in_range(sample_shifts@),
            forall|j: int| 0 <= j < splats@.len() ==> splat_valid(sample_shifts@, #[trigger] splats@[j]),
            old(self).grid_collider_distances.view().len() + STENCIL_SIZE * samples_before(
                sample_shifts@,
                sample_shifts@.len() as int,
            ) < usize::MAX,
        ensures
            final(self).wf(),
            forall|c: Cell| #[trigger]
                final(self).grid_collider_distances.view().contains(c) <==> old(
                    self,
                ).grid_collider_distances.view().contains(c) || covered_by_samples(sample_shifts@, c),
            final(self).grid_collider_distances.view().len() <= old(
                self,
            ).grid_collider_distances.view().len() + STENCIL_SIZE * samples_before(
                sample_shifts@,
                sample_shifts@.len() as int,
            ),
            forall|s: int|
                0 <= s < final(self).grid_collider_distances.nodes@.len() ==> (
                #[trigger] final(self).grid_collider_distances.nodes@[s]).records@.len()
                    == old(self).n_colliders(),
            forall|s: int, k: int|
                0 <= s < final(self).grid_collider_distances.view().len() && 0 <= k
                    < old(self).n_colliders() ==> nearest_record(
                    sample_shifts@,
                    splats@,
                    splats@.len() as int,
                    k,
                    final(self).grid_collider_distances.view()[s],
                    #[trigger] final(self).grid_collider_distances.record(s, k),
                ),
            final(self).sort_map == old(self).sort_map,
            final(self).reverse_sort_map == old(self).reverse_sort_map,
            final(self).grid_momentum == old(self).grid_momentum,
            final(self).grid_collider_momentums == old(self).grid_collider_momentums,
    {
        self.scatter_collider_distances_create_entries(sample_shifts);
        let ghost created = self.grid_collider_distances.view();
        self.scatter_collider_distances_reset();
        assert(self.grid_collider_distances.view() == created);
        assert forall|j: int| 0 <= j < splats@.len() implies self.grid_collider_distances.view().contains(
            splat_cell(sample_shifts@, #[trigger] splats@[j]),
        ) by {
            let sp = splats@[j];
            assert(splat_valid(sample_shifts@, sp));
            let shift = sample_shifts@[sp.collider as int]@[sp.sample as int];
            assert(crate::lattice::stencil_cell_spec(shift, sp.offset as int) == splat_cell(sample_shifts@, sp));
            assert(in_stencil(shift, splat_cell(sample_shifts@, sp)));
            assert(covered_by_samples(sample_shifts@, splat_cell(sample_shifts@, sp)));
            assert(created.contains(splat_cell(sample_shifts@, sp)));
        }
        let ghost cleared = self.grid_collider_distances;
        self.scatter_collider_distances_scatter(sample_shifts, splats);
        proof {
            assert forall|s: int, k: int|
                0 <= s < self.grid_collider_distances.view().len() && 0 <= k < old(self).n_colliders()
                    implies nearest_record(
                    sample_shifts@,
                    splats@,
                    splats@.len() as int,
                    k,
                    self.grid_collider_distances.view()[s],
                    #[trigger] self.grid_collider_distances.record(s, k),
                ) by {
                assert(cleared.nodes@[s].records@ == Seq::new(
                    old(self).n_colliders(),
                    |k: int| None::<WeightedDistance>,
                ));
                assert(cleared.record(s, k) is None);
                lemma_folded_record(
                    sample_shifts@,
                    splats@,
                    splats@.len() as int,
                    k,
                    self.grid_collider_distances.view()[s],
                    None,
                );
            }
            assert forall|s: int|
                0 <= s < self.grid_collider_distances.nodes@.len() implies (
                #[trigger] self.grid_collider_distances.nodes@[s]).records@.len()
                    == old(self).n_colliders() by {
                assert(cleared.nodes@[s].records@.len() == old(self).n_colliders());
            }
        }
    }

    /// The distance record of node `c` for collider `k`, where the field has
    /// node `c`: none if the node has no record for `k`.
    pub open spec fn boundary_record(&self, k: int, c: Cell) -> Option<WeightedDistance> {
        let d = choose|d: int|
            0 <= d < self.grid_collider_distances.view().len()
                && self.grid_collider_distances.view()[d] == c;
        self.grid_collider_distances.record(d, k)
    }

    /// Per slot of collider `k`'s momentum grid, the distance record that
    /// boundary conformance uses for that node and collider. Where a node has
    /// none, it gets no boundary condition and its velocity is left as it is.
    /// Every node of a collider grid is expected in the distance field: if one
    /// is missing, that broken invariant gives `None` for the whole grid, for
    /// the step to report.
    pub fn boundary_records(&self, k: usize) -> (r: Option<Vec<Option<WeightedDistance>>>)
        requires
            self.wf(),
            k < self.n_colliders(),
        ensures
            r is None <==> exists|s: int|
                0 <= s < self.grid_collider_momentums@[k as int].view().len()
                    && !self.grid_collider_distances.view().contains(
                    #[trigger] self.grid_collider_momentums@[k as int].view()[s],
                ),
            r matches Some(r) ==> {
                &&& r@.len() == self.grid_collider_momentums@[k as int].view().len()
                &&& forall|s: int|
                    0 <= s < r@.len() ==> #[trigger] r@[s] == self.boundary_record(
                        k as int,
                        self.grid_collider_momentums@[k as int].view()[s],
                    )
            },
    {
        let grid = &self.grid_collider_momentums[k];
        let field = &self.grid_collider_distances;
        let n = grid.len();
        let mut r: Vec<Option<WeightedDistance>> = Vec::new();
        let mut s: usize = 0;
        while s < n
            invariant
                self.wf(),
                k < self.n_colliders(),
                *grid == self.grid_collider_momentums@[k as int],
                *field == self.grid_collider_distances,
                grid.wf(),
                n == grid.view().len(),
                s <= n,
                r@.len() == s,
                forall|q: int| 0 <= q < s ==> field.view().contains(#[trigger] grid.view()[q]),
                forall|q: int| 0 <= q < s ==> #[trigger] r@[q] == self.boundary_record(k as int, grid.view()[q]),
            decreases n - s,
        {
            let c = grid.index.cells[s];
            let record = match field.find(c) {
                Some(d) => {
                    let records = &field.nodes[d].records;
                    proof {
                        field.index.lemma_slots_contiguous();
                    }
                    if k < records.len() {
                        records[k]
                    } else {
                        None
                    }
                },
                None => {
                    assert(grid.view()[s as int] == c);
                    return None;
                },
            };
            r.push(record);
            s = s + 1;
        }
        Some(r)
    }
}

} // verus!
