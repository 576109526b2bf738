use vstd::prelude::*;

verus! {

/// An integer lattice coordinate of a grid node: `(i, j, k)`.
pub type Cell = (i32, i32, i32);

/// Number of nodes in the support of the quadratic B-spline kernel (3 per axis).
pub const STENCIL_SIZE: usize = 27;

/// A stencil origin whose whole 3 x 3 x 3 neighbourhood is representable.
pub open spec fn shift_in_range(shift: Cell) -> bool {
    shift.0 <= i32::MAX - 2 && shift.1 <= i32::MAX - 2 && shift.2 <= i32::MAX - 2
}

/// The `t`-th node of the stencil whose lowest corner is `shift`;
/// `t` runs over `0..27` with the last axis fastest.
pub open spec fn stencil_cell_spec(shift: Cell, t: int) -> Cell {
    ((shift.0 + t / 9) as i32, (shift.1 + (t / 3) % 3) as i32, (shift.2 + t % 3) as i32)
}

/// The nodes of the stencil whose lowest corner is `shift`, in stencil order.
pub open spec fn stencil_spec(shift: Cell) -> Seq<Cell> {
    Seq::new(STENCIL_SIZE as nat, |t: int| stencil_cell_spec(shift, t))
}

/// `c` is one of the nodes of the stencil at `shift`.
pub open spec fn in_stencil(shift: Cell, c: Cell) -> bool {
    exists|t: int| 0 <= t < STENCIL_SIZE && #[trigger] stencil_cell_spec(shift, t) == c
}

/// Distinct stencil positions name distinct nodes.
pub proof fn lemma_stencil_cells_distinct(shift: Cell, t: int, u: int)
    requires
        shift_in_range(shift),
        0 <= t < STENCIL_SIZE,
        0 <= u < STENCIL_SIZE,
        t != u,
    ensures
        stencil_cell_spec(shift, t) != stencil_cell_spec(shift, u),
{
    assert(t == (t / 9) * 9 + ((t / 3) % 3) * 3 + t % 3);
    assert(u == (u / 9) * 9 + ((u / 3) % 3) * 3 + u % 3);
}

/// The `t`-th node of the stencil whose lowest corner is `shift`.
pub fn stencil_cell(shift: Cell, t: usize) -> (c: Cell)
    requires
        shift_in_range(shift),
        t < STENCIL_SIZE,
    ensures
        c == stencil_cell_spec(shift, t as int),
{
    let a: i32 = (t / 9) as i32;
    let b: i32 = ((t / 3) % 3) as i32;
    let d: i32 = (t % 3) as i32;
    (shift.0 + a, shift.1 + b, shift.2 + d)
}

/// All nodes of the stencil whose lowest corner is `shift`, in stencil order.
pub fn stencil(shift: Cell) -> (r: Vec<Cell>)
    requires
        shift_in_range(shift),
    ensures
        r@ == stencil_spec(shift),
{
    let mut r: Vec<Cell> = Vec::new();
    let mut t: usize = 0;
    while t < STENCIL_SIZE
        invariant
            shift_in_range(shift),
            t <= STENCIL_SIZE,
            r@ == stencil_spec(shift).take(t as int),
        decreases STENCIL_SIZE - t,
    {
        r.push(stencil_cell(shift, t));
        t = t + 1;
    }
    assert(r@ =~= stencil_spec(shift));
    r
}

} // verus!
