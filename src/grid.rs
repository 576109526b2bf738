use vstd::prelude::*;

use crate::cell_index::{CellIndex, cell_key};
use crate::lattice::{
    Cell, STENCIL_SIZE, lemma_stencil_cells_distinct, shift_in_range, stencil_cell,
    stencil_cell_spec,
};

verus! {

/// `claims` holds one entry per stencil node of each particle of `shifts`.
pub open spec fn touches_shaped(shifts: Seq<Cell>, claims: Seq<Vec<Option<usize>>>) -> bool {
    &&& claims.len() == shifts.len()
    &&& forall|p: int| 0 <= p < shifts.len() ==> shift_in_range(#[trigger] shifts[p])
    &&& forall|p: int| 0 <= p < claims.len() ==> (#[trigger] claims[p])@.len() == STENCIL_SIZE
}

/// Per particle, the lowest corner of its stencil (`shifts`) and, per stencil
/// node, the collider that claims the node for that particle, if any (`claims`).
pub open spec fn valid_touches(
    shifts: Seq<Cell>,
    claims: Seq<Vec<Option<usize>>>,
    n_colliders: nat,
) -> bool {
    &&& touches_shaped(shifts, claims)
    &&& forall|p: int, t: int|
        0 <= p < claims.len() && 0 <= t < STENCIL_SIZE ==> match #[trigger] claims[p]@[t] {
            Some(k) => k < n_colliders,
            None => true,
        }
}

/// Among the first `t_end` nodes of particle `p`'s stencil, `c` is one that is
/// routed to the grid `target` (`None`: the shared grid; `Some(k)`: collider `k`'s).
pub open spec fn routed_within(
    shifts: Seq<Cell>,
    claims: Seq<Vec<Option<usize>>>,
    target: Option<usize>,
    p: int,
    t_end: int,
    c: Cell,
) -> bool {
    exists|u: int|
        0 <= u < t_end && #[trigger] stencil_cell_spec(shifts[p], u) == c && claims[p]@[u] == target
}

/// Particle `p` touches `c` and routes it to the grid `target`.
pub open spec fn routed(
    shifts: Seq<Cell>,
    claims: Seq<Vec<Option<usize>>>,
    target: Option<usize>,
    p: int,
    c: Cell,
) -> bool {
    routed_within(shifts, claims, target, p, STENCIL_SIZE as int, c)
}

/// The list is in strictly ascending order (so it holds no index twice).
pub open spec fn strictly_ascending(l: Seq<usize>) -> bool {
    forall|i: int, j: int| 0 <= i < j < l.len() ==> l[i] < l[j]
}

/// `new` is `old` after a topology rebuild for the grid `target`: well formed;
/// its nodes are those of `old` that kept contributors, and those that some
/// particle routes here; each slot lists, in ascending order, exactly the
/// particles that route its node here.
pub open spec fn rebuilt_from(
    new: SparseGrid,
    old: SparseGrid,
    shifts: Seq<Cell>,
    claims: Seq<Vec<Option<usize>>>,
    target: Option<usize>,
) -> bool {
    &&& new.wf()
    &&& forall|c: Cell| #[trigger]
        new.view().contains(c) <==> old.keeps(c) || exists|p: int|
            0 <= p < shifts.len() && #[trigger] routed(shifts, claims, target, p, c)
    &&& forall|s: int, q: usize|
        0 <= s < new.view().len() ==> (#[trigger] new.contributors@[s]@.contains(q) <==> q
            < shifts.len() && routed(shifts, claims, target, q as int, new.view()[s]))
    &&& forall|s: int| 0 <= s < new.view().len() ==> strictly_ascending(#[trigger] new.contributors@[s]@)
}

/// After a topology rebuild the slots of the grid number its nodes
/// contiguously `0..n`: no node twice, each slot found from its node's key,
/// and no slot outside `0..n`.
pub proof fn lemma_rebuilt_slots_contiguous(
    new: SparseGrid,
    old: SparseGrid,
    shifts: Seq<Cell>,
    claims: Seq<Vec<Option<usize>>>,
    target: Option<usize>,
)
    requires
        rebuilt_from(new, old, shifts, claims, target),
    ensures
        new.view().no_duplicates(),
        forall|s: int|
            0 <= s < new.view().len() ==> new.index.slots@[cell_key(#[trigger] new.view()[s]) as i128]
                == s,
        forall|k: i128| #[trigger]
            new.index.slots@.contains_key(k) ==> 0 <= new.index.slots@[k] < new.view().len(),
        new.index.slots@.len() == new.view().len(),
{
    new.index.lemma_slots_contiguous();
}

/// One sparse momentum grid: its active lattice cells with dense slots, and per
/// slot the particles whose stencil reaches that node this step.
pub struct SparseGrid {
    pub index: CellIndex,
    pub contributors: Vec<Vec<usize>>,
}

impl SparseGrid {
    pub open spec fn view(&self) -> Seq<Cell> {
        self.index.view()
    }

    pub open spec fn wf(&self) -> bool {
        &&& self.index.wf()
        &&& self.contributors@.len() == self.index.view().len()
    }

    /// `c` is a node of this grid that some particle reached at the last rebuild.
    pub open spec fn keeps(&self, c: Cell) -> bool {
        exists|s: int|
            0 <= s < self.view().len() && #[trigger] self.view()[s] == c
                && self.contributors@[s]@.len() > 0
    }

    /// A grid with no node.
    pub fn new() -> (r: SparseGrid)
        ensures
            r.wf(),
            r.view() == Seq::<Cell>::empty(),
    {
        SparseGrid { index: CellIndex::new(), contributors: Vec::new() }
    }

    pub fn len(&self) -> (r: usize)
        requires
            self.wf(),
        ensures
            r == self.view().len(),
    {
        self.index.len()
    }

    /// The slot of `c`, if `c` is a node of this grid.
    pub fn find(&self, c: Cell) -> (r: Option<usize>)
        requires
            self.wf(),
        ensures
            match r {
                Some(s) => s < self.view().len() && self.view()[s as int] == c,
                None => !self.view().contains(c),
            },
    {
        self.index.find(c)
    }

    /// This grid after a topology rebuild for the grid `target`: the nodes that
    /// kept contributors from the last rebuild stay, each node that a particle
    /// routes here is added if absent, and every slot gets, in ascending order,
    /// exactly the particles that route its node here. Slots are renumbered.
    pub fn rebuilt(
        &self,
        shifts: &Vec<Cell>,
        claims: &Vec<Vec<Option<usize>>>,
        target: Option<usize>,
    ) -> (r: SparseGrid)
        requires
            self.wf(),
            touches_shaped(shifts@, claims@),
            self.view().len() + STENCIL_SIZE * shifts@.len() < usize::MAX,
        ensures
            rebuilt_from(r, *self, shifts@, claims@, target),
    {
        let mut r = self.pruned();
        let n = shifts.len();
        let mut p: usize = 0;
        while p < n
            invariant
                self.wf(),
                r.wf(),
                touches_shaped(shifts@, claims@),
                n == shifts@.len(),
                p <= n,
                self.view().len() + STENCIL_SIZE * n < usize::MAX,
                r.view().len() <= self.view().len() + STENCIL_SIZE * p,
                forall|c: Cell| #[trigger]
                    r.view().contains(c) <==> self.keeps(c) || exists|q: int|
                        0 <= q < p && #[trigger] routed(shifts@, claims@, target, q, c),
                forall|s: int, q: usize|
                    0 <= s < r.view().len() ==> (#[trigger] r.contributors@[s]@.contains(q) <==> q
                        < p && routed(shifts@, claims@, target, q as int, r.view()[s])),
                forall|s: int| 0 <= s < r.view().len() ==> strictly_ascending(#[trigger] r.contributors@[s]@),
                forall|s: int, i: int|
                    0 <= s < r.view().len() && 0 <= i < r.contributors@[s]@.len() ==> #[trigger] r.contributors@[s]@[i] < p,
            decreases n - p,
        {
            let mut t: usize = 0;
            while t < STENCIL_SIZE
                invariant
                    self.wf(),
                    r.wf(),
                    touches_shaped(shifts@, claims@),
                    n == shifts@.len(),
                    p < n,
                    t <= STENCIL_SIZE,
                    self.view().len() + STENCIL_SIZE * n < usize::MAX,
                    r.view().len() <= self.view().len() + STENCIL_SIZE * p + t,
                    forall|c: Cell| #[trigger]
                        r.view().contains(c) <==> self.keeps(c) || (exists|q: int|
                            0 <= q < p && #[trigger] routed(shifts@, claims@, target, q, c))
                            || routed_within(shifts@, claims@, target, p as int, t as int, c),
                    forall|s: int, q: usize|
                        0 <= s < r.view().len() ==> (#[trigger] r.contributors@[s]@.contains(q) <==> (q
                            < p && routed(shifts@, claims@, target, q as int, r.view()[s])) || (q == p
                            && routed_within(shifts@, claims@, target, p as int, t as int, r.view()[s]))),
                    forall|s: int| 0 <= s < r.view().len() ==> strictly_ascending(#[trigger] r.contributors@[s]@),
                    forall|s: int, i: int|
                        0 <= s < r.view().len() && 0 <= i < r.contributors@[s]@.len() ==> #[trigger] r.contributors@[s]@[i] <= p,
                decreases STENCIL_SIZE - t,
            {
                let here = match (claims[p][t], target) {
                    (Some(a), Some(b)) => a == b,
                    (None, None) => true,
                    _ => false,
                };
                assert(here == (claims@[p as int]@[t as int] == target));
                let ghost before = r;
                let ghost cell_t = stencil_cell_spec(shifts@[p as int], t as int);
                assert forall|d: Cell| #[trigger]
                    routed_within(shifts@, claims@, target, p as int, t + 1, d) <==> routed_within(
                        shifts@,
                        claims@,
                        target,
                        p as int,
                        t as int,
                        d,
                    ) || (here && d == cell_t) by {
                    if routed_within(shifts@, claims@, target, p as int, t + 1, d) {
                        let u = choose|u: int|
                            0 <= u < t + 1 && #[trigger] stencil_cell_spec(shifts@[p as int], u) == d
                                && claims@[p as int]@[u] == target;
                        if u < t {
                            assert(stencil_cell_spec(shifts@[p as int], u) == d);
                        }
                    }
                    if routed_within(shifts@, claims@, target, p as int, t as int, d) {
                        let u = choose|u: int|
                            0 <= u < t && #[trigger] stencil_cell_spec(shifts@[p as int], u) == d
                                && claims@[p as int]@[u] == target;
                        assert(stencil_cell_spec(shifts@[p as int], u) == d);
                    }
                    if here && d == cell_t {
                        assert(stencil_cell_spec(shifts@[p as int], t as int) == d);
                    }
                }
                if here {
                    let c = stencil_cell(shifts[p], t);
                    let slot = r.index.insert(c);
                    if slot == r.contributors.len() {
                        r.contributors.push(Vec::new());
                    }
                    let ghost list = r.contributors@[slot as int]@;
                    proof {
                        assert(!list.contains(p)) by {
                            if list.contains(p) {
                                if slot < before.view().len() {
                                    assert(before.contributors@[slot as int]@.contains(p));
                                    let u = choose|u: int|
                                        0 <= u < t && #[trigger] stencil_cell_spec(shifts@[p as int], u)
                                            == before.view()[slot as int] && claims@[p as int]@[u] == target;
                                    lemma_stencil_cells_distinct(shifts@[p as int], u, t as int);
                                }
                            }
                        }
                    }
                    r.contributors[slot].push(p);
                    proof {
                        r.index.lemma_slots_contiguous();
                        assert(r.contributors@[slot as int]@ == list.push(p));
                        assert(r.view()[slot as int] == cell_t);
                        assert forall|e: Cell| #[trigger]
                            r.view().contains(e) <==> before.view().contains(e) || e == cell_t by {
                            if r.view().contains(e) && e != cell_t {
                                let i = choose|i: int| 0 <= i < r.view().len() && r.view()[i] == e;
                                assert(before.view()[i] == e);
                            }
                            if before.view().contains(e) {
                                let i = choose|i: int| 0 <= i < before.view().len() && before.view()[i] == e;
                                assert(r.view()[i] == e);
                            }
                        }
                        assert forall|s: int|
                            0 <= s < r.view().len() && s != slot implies r.contributors@[s]
                                == before.contributors@[s] && r.view()[s] == before.view()[s]
                                && #[trigger] r.view()[s] != cell_t by {
                            assert(s < before.view().len());
                        }
                        assert forall|s: int, q: usize|
                            0 <= s < r.view().len() implies (#[trigger] r.contributors@[s]@.contains(q) <==> (q
                                < p && routed(shifts@, claims@, target, q as int, r.view()[s])) || (q == p
                                && routed_within(shifts@, claims@, target, p as int, t + 1, r.view()[s]))) by {
                            if s == slot {
                                assert(stencil_cell_spec(shifts@[p as int], t as int) == cell_t);
                                assert(claims@[p as int]@[t as int] == target);
                                assert(routed_within(shifts@, claims@, target, p as int, t + 1, cell_t));
                                assert(r.contributors@[s]@.contains(q) <==> list.contains(q) || q == p) by {
                                    let pushed = list.push(p);
                                    assert(pushed[list.len() as int] == p);
                                    if list.contains(q) {
                                        let i = choose|i: int| 0 <= i < list.len() && list[i] == q;
                                        assert(pushed[i] == q);
                                    }
                                    if pushed.contains(q) && q != p {
                                        let i = choose|i: int| 0 <= i < pushed.len() && pushed[i] == q;
                                        assert(list[i] == q);
                                    }
                                }
                                if slot < before.view().len() {
                                    assert(before.contributors@[s]@ == list);
                                    assert(before.view()[s] == cell_t);
                                    assert(list.contains(q) <==> (q < p && routed(shifts@, claims@, target, q as int, cell_t)) || (q == p && routed_within(shifts@, claims@, target, p as int, t as int, cell_t)));
                                } else {
                                    assert(list.len() == 0);
                                    if q < p && routed(shifts@, claims@, target, q as int, cell_t) {
                                        assert(before.view().contains(cell_t));
                                    }
                                }
                            } else {
                                assert(r.view()[s] == before.view()[s]);
                                assert(r.view()[s] != cell_t);
                                assert(r.contributors@[s] == before.contributors@[s]);
                            }
                        }
                        assert forall|s: int| 0 <= s < r.view().len() implies strictly_ascending(
                            #[trigger] r.contributors@[s]@,
                        ) by {
                            if s == slot {
                                assert forall|i: int| 0 <= i < list.len() implies list[i] < p by {
                                    if slot < before.view().len() {
                                        assert(before.contributors@[s]@[i] <= p);
                                    }
                                }
                            }
                        }
                        assert forall|s: int, i: int|
                            0 <= s < r.view().len() && 0 <= i < r.contributors@[s]@.len() implies #[trigger] r.contributors@[s]@[i] <= p by {
                            if s == slot && i < list.len() && slot < before.view().len() {
                                assert(before.contributors@[s]@[i] <= p);
                            }
                        }
                    }
                }
                t = t + 1;
            }
            assert forall|c: Cell| #[trigger] r.view().contains(c) <==> self.keeps(c) || exists|q: int|
                0 <= q < p + 1 && #[trigger] routed(shifts@, claims@, target, q, c) by {
                if routed(shifts@, claims@, target, p as int, c) {
                    assert(0 <= p < p + 1);
                }
            }
            assert forall|s: int, i: int|
                0 <= s < r.view().len() && 0 <= i < r.contributors@[s]@.len() implies #[trigger] r.contributors@[s]@[i] < p + 1 by {
                assert(r.contributors@[s]@[i] <= p);
            }
            assert forall|s: int, q: usize|
                0 <= s < r.view().len() implies (#[trigger] r.contributors@[s]@.contains(q) <==> q
                    < p + 1 && routed(shifts@, claims@, target, q as int, r.view()[s])) by {
            }
            p = p + 1;
        }
        r
    }

    /// The nodes of this grid that some particle reached at the last rebuild,
    /// in their old order, each with an empty contributor list.
    fn pruned(&self) -> (r: SparseGrid)
        requires
            self.wf(),
        ensures
            r.wf(),
            r.view().len() <= self.view().len(),
            forall|c: Cell| #[trigger] r.view().contains(c) <==> self.keeps(c),
            forall|s: int| 0 <= s < r.contributors@.len() ==> (#[trigger] r.contributors@[s])@.len() == 0,
    {
        let mut r = SparseGrid::new();
        let n = self.len();
        let mut s: usize = 0;
        while s < n
            invariant
                self.wf(),
                n == self.view().len(),
                s <= n,
                r.wf(),
                r.view().len() <= s,
                forall|c: Cell| #[trigger] r.view().contains(c) <==> exists|q: int|
                    0 <= q < s && #[trigger] self.view()[q] == c && self.contributors@[q]@.len() > 0,
                forall|q: int| 0 <= q < r.contributors@.len() ==> (#[trigger] r.contributors@[q])@.len() == 0,
            decreases n - s,
        {
            if self.contributors[s].len() > 0 {
                let c = self.index.cells[s];
                proof {
                    self.index.lemma_slots_contiguous();
                    if r.view().contains(c) {
                        let q = choose|q: int|
                            0 <= q < s && #[trigger] self.view()[q] == c && self.contributors@[q]@.len() > 0;
                        assert(self.view()[q] == self.view()[s as int]);
                    }
                }
                let ghost before = r.view();
                r.index.insert(c);
                r.contributors.push(Vec::new());
                assert(self.view()[s as int] == c);
                assert(r.view() == before.push(c));
                assert forall|d: Cell| #[trigger] r.view().contains(d) <==> exists|q: int|
                    0 <= q < s + 1 && #[trigger] self.view()[q] == d && self.contributors@[q]@.len()
                        > 0 by {
                    if d == c {
                        assert(r.view()[before.len() as int] == c);
                    } else {
                        if r.view().contains(d) {
                            let i = choose|i: int| 0 <= i < r.view().len() && r.view()[i] == d;
                            assert(before[i] == d);
                            assert(before.contains(d));
                        }
                        if exists|q: int|
                            0 <= q < s + 1 && #[trigger] self.view()[q] == d && self.contributors@[q]@.len() > 0 {
                            let q = choose|q: int|
                                0 <= q < s + 1 && #[trigger] self.view()[q] == d && self.contributors@[q]@.len() > 0;
                            assert(q < s);
                            assert(before.contains(d));
                            let i = choose|i: int| 0 <= i < before.len() && before[i] == d;
                            assert(r.view()[i] == d);
                        }
                    }
                }
            }
            s = s + 1;
        }
        r
    }
}

} // verus!
