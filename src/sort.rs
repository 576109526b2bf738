use rayon::slice::ParallelSliceMut;
use vstd::prelude::*;
use vstd::seq_lib::group_to_multiset_ensures;

use crate::lattice::Cell;

verus! {

/// A sort key (a lattice cell) paired with the index of the entity it belongs to.
pub type KeyedIndex = (i32, i32, i32, usize);

/// Lexicographic order on lattice cells, as std's `Ord` on tuples.
pub open spec fn cell_le(a: Cell, b: Cell) -> bool {
    a.0 < b.0 || (a.0 == b.0 && (a.1 < b.1 || (a.1 == b.1 && a.2 <= b.2)))
}

/// Lexicographic order on keyed indices, as std's `Ord` on tuples.
pub open spec fn keyed_le(a: KeyedIndex, b: KeyedIndex) -> bool {
    cell_le((a.0, a.1, a.2), (b.0, b.1, b.2)) && ((a.0, a.1, a.2) == (b.0, b.1, b.2) ==> a.3
        <= b.3)
}

/// `p` rearranges `0..n`: it has `n` distinct entries, each below `n`.
pub open spec fn is_permutation(p: Seq<usize>, n: nat) -> bool {
    &&& p.len() == n
    &&& forall|i: int| 0 <= i < p.len() ==> p[i] < n
    &&& p.no_duplicates()
}

/// `order` lists the indices of `keys` by ascending key, equal keys by ascending index.
pub open spec fn is_sorted_order(keys: Seq<Cell>, order: Seq<usize>) -> bool {
    &&& is_permutation(order, keys.len())
    &&& forall|i: int, j: int|
        0 <= i < j < order.len() ==> cell_le(#[trigger] keys[order[i] as int], #[trigger] keys[order[j] as int])
    &&& forall|i: int, j: int|
        0 <= i < j < order.len() && keys[order[i] as int] == keys[order[j] as int] ==> order[i] < order[j]
}

/// Relies on rayon's `ParallelSliceMut::par_sort_unstable`: the items come back
/// rearranged, in ascending order of the tuples' `Ord`.
#[verifier::external_body]
fn par_sort_keyed(v: &mut Vec<KeyedIndex>)
    ensures
        final(v)@.to_multiset() == old(v)@.to_multiset(),
        forall|i: int, j: int|
            0 <= i < j < final(v)@.len() ==> keyed_le(final(v)@[i], final(v)@[j]),
{
    v.par_sort_unstable();
}

/// The order in which entities with the given cell keys are laid out after a
/// spatial sort: by ascending cell, equal cells keeping their relative order.
pub fn sort_order(keys: &Vec<Cell>) -> (order: Vec<usize>)
    ensures
        is_sorted_order(keys@, order@),
{
    broadcast use group_to_multiset_ensures;

    let n = keys.len();
    let mut items: Vec<KeyedIndex> = Vec::new();
    let mut i: usize = 0;
    while i < n
        invariant
            n == keys@.len(),
            i <= n,
            items@.len() == i,
            forall|j: int|
                0 <= j < i ==> #[trigger] items@[j] == (keys@[j].0, keys@[j].1, keys@[j].2, j as usize),
        decreases n - i,
    {
        let k = keys[i];
        items.push((k.0, k.1, k.2, i));
        i = i + 1;
    }
    let ghost input = items@;
    assert(input.no_duplicates()) by {
        assert forall|a: int, b: int| 0 <= a < input.len() && 0 <= b < input.len() && a != b
            implies input[a] != input[b] by {
            assert(input[a].3 == a);
            assert(input[b].3 == b);
        }
    }
    par_sort_keyed(&mut items);
    proof {
        input.lemma_multiset_has_no_duplicates();
        items@.lemma_multiset_has_no_duplicates_conv();
        assert(items@.len() == items@.to_multiset().len());
        assert(input.len() == input.to_multiset().len());
        assert forall|j: int| 0 <= j < items@.len() implies (#[trigger] items@[j]).3 < n
            && items@[j] == input[items@[j].3 as int] by {
            assert(items@.contains(items@[j]));
            assert(items@.to_multiset().count(items@[j]) > 0);
            assert(input.contains(items@[j]));
            let w = choose|w: int| 0 <= w < input.len() && input[w] == items@[j];
            assert(input[w].3 == w);
        }
    }
    let mut order: Vec<usize> = Vec::new();
    let mut j: usize = 0;
    while j < n
        invariant
            n == keys@.len(),
            items@.len() == n,
            j <= n,
            order@.len() == j,
            forall|m: int| 0 <= m < j ==> #[trigger] order@[m] == items@[m].3,
        decreases n - j,
    {
        order.push(items[j].3);
        j = j + 1;
    }
    proof {
        assert forall|a: int, b: int| 0 <= a < order@.len() && 0 <= b < order@.len() && a != b
            implies order@[a] != order@[b] by {
            assert(items@[a] == input[items@[a].3 as int]);
            assert(items@[b] == input[items@[b].3 as int]);
        }
        assert forall|a: int, b: int| 0 <= a < b < order@.len() implies cell_le(
            #[trigger] keys@[order@[a] as int],
            #[trigger] keys@[order@[b] as int],
        ) && (keys@[order@[a] as int] == keys@[order@[b] as int] ==> order@[a] < order@[b]) by {
            assert(items@[a] == input[items@[a].3 as int]);
            assert(items@[b] == input[items@[b].3 as int]);
            assert(keyed_le(items@[a], items@[b]));
        }
    }
    order
}

/// Entities whose keys are the same cell stand next to each other after a
/// spatial sort: nothing with another key lies between two of them.
pub proof fn lemma_same_cell_adjacent(keys: Seq<Cell>, order: Seq<usize>, a: int, m: int, b: int)
    requires
        is_sorted_order(keys, order),
        0 <= a < m < b < order.len(),
        keys[order[a] as int] == keys[order[b] as int],
    ensures
        keys[order[m] as int] == keys[order[a] as int],
{
    assert(cell_le(keys[order[a] as int], keys[order[m] as int]));
    assert(cell_le(keys[order[m] as int], keys[order[b] as int]));
}

/// `v` gathered through `perm`: entry `i` of the result is `v[perm[i]]`.
pub open spec fn gathered<T>(perm: Seq<usize>, v: Seq<T>) -> Seq<T> {
    Seq::new(perm.len(), |i: int| v[perm[i] as int])
}

/// Gathers `v` through `perm` (`r[i] == v[perm[i]]`), the way every
/// per-entity array follows a sort. Lengths that differ, or an index of `perm`
/// outside `v`, are a broken invariant of the caller and give `None`.
pub fn permute<T: Copy>(perm: &Vec<usize>, v: &Vec<T>) -> (r: Option<Vec<T>>)
    ensures
        match r {
            Some(r) => perm@.len() == v@.len() && (forall|i: int|
                0 <= i < perm@.len() ==> perm@[i] < v@.len()) && r@ == gathered(perm@, v@),
            None => perm@.len() != v@.len() || exists|i: int|
                0 <= i < perm@.len() && perm@[i] >= v@.len(),
        },
{
    if perm.len() != v.len() {
        return None;
    }
    let mut r: Vec<T> = Vec::new();
    let mut i: usize = 0;
    while i < perm.len()
        invariant
            i <= perm@.len(),
            r@.len() == i,
            forall|j: int| 0 <= j < i ==> perm@[j] < v@.len(),
            forall|j: int| 0 <= j < i ==> #[trigger] r@[j] == v@[perm@[j] as int],
        decreases perm@.len() - i,
    {
        let p = perm[i];
        if p >= v.len() {
            return None;
        }
        r.push(v[p]);
        i = i + 1;
    }
    assert(r@ =~= gathered(perm@, v@));
    Some(r)
}

/// A permutation of `0..n` reaches every index below `n`.
pub proof fn lemma_permutation_onto(p: Seq<usize>, x: int)
    requires
        is_permutation(p, p.len()),
        p.len() <= usize::MAX,
        0 <= x < p.len(),
    ensures
        exists|j: int| 0 <= j < p.len() && p[j] == x,
{
    let n = p.len() as int;
    let f = |i: int| i as usize;
    let ints = vstd::set_lib::set_int_range(0, n);
    let range = Set::new(|v: usize| (v as int) < n);
    vstd::set_lib::lemma_int_range(0, n);
    assert forall|v: usize| #[trigger] range.contains(v) <==> ints.map(f).contains(v) by {
        if range.contains(v) {
            assert(ints.contains(v as int) && f(v as int) == v);
        }
    }
    assert(range =~= ints.map(f));
    assert forall|a: int, b: int| ints.contains(a) && ints.contains(b) && #[trigger] f(a) == #[trigger] f(b)
        implies a == b by {
        assert(f(a) as int == a);
        assert(f(b) as int == b);
    }
    vstd::set_lib::lemma_map_size(ints, range, f);
    p.unique_seq_to_set();
    assert forall|v: usize| #[trigger] p.to_set().contains(v) implies range.contains(v) by {
        assert(p.contains(v));
    }
    vstd::set_lib::lemma_subset_equality(p.to_set(), range);
    assert((x as usize) as int == x);
    assert(range.contains(x as usize));
    assert(p.to_set().contains(x as usize));
    assert(p.contains(x as usize));
    let j = choose|j: int| 0 <= j < p.len() && p[j] == x as usize;
    assert(p[j] == x);
}

/// The inverse of an injective map into `0..n`: `r[p[i]] == i` for every `i`.
pub fn inverse_permutation(p: &Vec<usize>) -> (r: Vec<usize>)
    requires
        is_permutation(p@, p@.len()),
    ensures
        r@.len() == p@.len(),
        forall|i: int| 0 <= i < p@.len() ==> #[trigger] r@[p@[i] as int] == i,
{
    let n = p.len();
    let mut r: Vec<usize> = Vec::new();
    let mut k: usize = 0;
    while k < n
        invariant
            n == p@.len(),
            k <= n,
            r@.len() == k,
        decreases n - k,
    {
        r.push(0);
        k = k + 1;
    }
    let mut i: usize = 0;
    while i < n
        invariant
            n == p@.len(),
            is_permutation(p@, p@.len()),
            i <= n,
            r@.len() == n,
            forall|j: int| 0 <= j < i ==> #[trigger] r@[p@[j] as int] == j,
        decreases n - i,
    {
        let target = p[i];
        r.set(target, i);
        assert forall|j: int| 0 <= j < i + 1 implies #[trigger] r@[p@[j] as int] == j by {
            if j < i {
                assert(p@[j] != p@[i as int]);
            }
        }
        i = i + 1;
    }
    r
}

} // verus!
