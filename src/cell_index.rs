use std::collections::HashMap;
use vstd::prelude::*;

use crate::lattice::Cell;

verus! {

broadcast use vstd::std_specs::hash::group_hash_axioms;

/// The injective packing of a lattice cell into one integer, used as hash key.
pub open spec fn cell_key(c: Cell) -> int {
    c.0 as int * 0x1_0000_0000_0000_0000 + (c.1 as int + 0x8000_0000) * 0x1_0000_0000 + (c.2 as int
        + 0x8000_0000)
}

/// Different cells have different keys.
pub proof fn lemma_cell_key_injective(a: Cell, b: Cell)
    ensures
        cell_key(a) == cell_key(b) ==> a == b,
{
}

fn key_of(c: Cell) -> (k: i128)
    ensures
        k as int == cell_key(c),
{
    (c.0 as i128) * 0x1_0000_0000_0000_0000i128 + ((c.1 as i128) + 0x8000_0000i128)
        * 0x1_0000_0000i128 + ((c.2 as i128) + 0x8000_0000i128)
}

/// A set of lattice cells, each numbered by a dense slot in `0..len`: the slot
/// of a cell is its position in `cells`, and `slots` finds it by key.
pub struct CellIndex {
    pub cells: Vec<Cell>,
    pub slots: HashMap<i128, usize>,
}

impl CellIndex {
    /// The cells in slot order.
    pub open spec fn view(&self) -> Seq<Cell> {
        self.cells@
    }

    /// `slots` maps the key of each cell to its slot, and holds nothing else.
    pub open spec fn wf(&self) -> bool {
        &&& forall|s: int|
            0 <= s < self.cells@.len() ==> #[trigger] self.slots@.contains_key(
                cell_key(self.cells@[s]) as i128,
            ) && self.slots@[cell_key(self.cells@[s]) as i128] == s
        &&& forall|k: i128| #[trigger]
            self.slots@.contains_key(k) ==> self.slots@[k] < self.cells@.len() && cell_key(
                self.cells@[self.slots@[k] as int],
            ) == k
    }

    /// Slots are a contiguous numbering `0..len` of the cells, with no gap and
    /// no cell numbered twice: each slot holds one cell, the key of each cell
    /// leads back to its own slot, and no cell stands in two slots.
    pub proof fn lemma_slots_contiguous(&self)
        requires
            self.wf(),
        ensures
            self.view().no_duplicates(),
            forall|s: int|
                0 <= s < self.view().len() ==> self.slots@[cell_key(#[trigger] self.view()[s]) as i128]
                    == s,
            forall|k: i128| #[trigger]
                self.slots@.contains_key(k) ==> 0 <= self.slots@[k] < self.view().len(),
            self.slots@.len() == self.view().len(),
    {
        assert forall|i: int, j: int|
            0 <= i < self.view().len() && 0 <= j < self.view().len() && i != j implies self.view()[i]
            != self.view()[j] by {
            assert(self.slots@.contains_key(cell_key(self.cells@[i]) as i128));
            assert(self.slots@.contains_key(cell_key(self.cells@[j]) as i128));
        }
        assert forall|s: int| 0 <= s < self.view().len() implies self.slots@[cell_key(
            #[trigger] self.view()[s],
        ) as i128] == s by {
            assert(self.slots@.contains_key(cell_key(self.cells@[s]) as i128));
        }
        let f = |s: int| cell_key(self.cells@[s]) as i128;
        let dom = Set::new(|s: int| 0 <= s < self.cells@.len());
        assert forall|k: i128| #[trigger] self.slots@.dom().contains(k) <==> dom.map(f).contains(k) by {
            if self.slots@.contains_key(k) {
                let s = self.slots@[k] as int;
                assert(dom.contains(s) && f(s) == k);
            }
            if dom.map(f).contains(k) {
                let s = choose|s: int| dom.contains(s) && f(s) == k;
                assert(self.slots@.contains_key(cell_key(self.cells@[s]) as i128));
            }
        }
        assert(self.slots@.dom() =~= dom.map(f));
        assert forall|a: int, b: int| dom.contains(a) && dom.contains(b) && #[trigger] f(a) == #[trigger] f(b) implies a == b by {
            assert(self.slots@.contains_key(f(a)));
        }
        vstd::set_lib::lemma_int_range(0, self.cells@.len() as int);
        assert(dom =~= vstd::set_lib::set_int_range(0, self.cells@.len() as int));
        vstd::set_lib::lemma_map_size(dom, dom.map(f), f);
    }

    /// An index with no cell.
    pub fn new() -> (r: CellIndex)
        ensures
            r.wf(),
            r.view() == Seq::<Cell>::empty(),
    {
        CellIndex { cells: Vec::new(), slots: HashMap::new() }
    }

    pub fn len(&self) -> (r: usize)
        ensures
            r == self.view().len(),
    {
        self.cells.len()
    }

    /// The slot of `c`, if `c` is in the index.
    pub fn find(&self, c: Cell) -> (r: Option<usize>)
        requires
            self.wf(),
        ensures
            match r {
                Some(s) => s < self.view().len() && self.view()[s as int] == c,
                None => !self.view().contains(c),
            },
    {
        let k = key_of(c);
        match self.slots.get(&k) {
            Some(s) => {
                proof {
                    lemma_cell_key_injective(self.cells@[*s as int], c);
                }
                Some(*s)
            },
            None => {
                proof {
                    if self.view().contains(c) {
                        let s = choose|s: int| 0 <= s < self.cells@.len() && self.cells@[s] == c;
                        assert(self.slots@.contains_key(cell_key(self.cells@[s]) as i128));
                    }
                }
                None
            },
        }
    }

    /// Adds `c` at the next slot unless it is there already; returns its slot.
    pub fn insert(&mut self, c: Cell) -> (s: usize)
        requires
            old(self).wf(),
            old(self).view().len() < usize::MAX,
        ensures
            final(self).wf(),
            s < final(self).view().len(),
            final(self).view()[s as int] == c,
            old(self).view().contains(c) ==> final(self).view() == old(self).view(),
            !old(self).view().contains(c) ==> final(self).view() == old(self).view().push(c),
    {
        match self.find(c) {
            Some(s) => s,
            None => {
                let s = self.cells.len();
                let k = key_of(c);
                self.cells.push(c);
                self.slots.insert(k, s);
                proof {
                    assert forall|t: int| 0 <= t < self.cells@.len() implies #[trigger] self.slots@.contains_key(
                        cell_key(self.cells@[t]) as i128,
                    ) && self.slots@[cell_key(self.cells@[t]) as i128] == t by {
                        if t < s {
                            assert(old(self).slots@.contains_key(cell_key(self.cells@[t]) as i128));
                            lemma_cell_key_injective(self.cells@[t], c);
                        }
                    }
                }
                s
            },
        }
    }
}

} // verus!
