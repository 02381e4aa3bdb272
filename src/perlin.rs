use vstd::prelude::*;

verus! {

/// The number of lattice gradients, and the length of each permutation table.
pub const POINT_COUNT: usize = 256;

/// A permutation table: `POINT_COUNT` entries, each a valid gradient index.
pub open spec fn is_table(t: Seq<usize>) -> bool {
    t.len() == POINT_COUNT && forall|i: int| 0 <= i < t.len() ==> #[trigger] t[i] < POINT_COUNT
}

/// The identity table that each axis of the noise starts from.
pub fn perlin_generate_perm() -> (r: Vec<usize>)
    ensures
        is_table(r@),
        forall|i: int| 0 <= i < POINT_COUNT ==> #[trigger] r@[i] == i,
{
    let mut p: Vec<usize> = Vec::new();
    let mut i: usize = 0;
    while i < POINT_COUNT
        invariant
            i <= POINT_COUNT,
            p@.len() == i,
            forall|k: int| 0 <= k < i ==> #[trigger] p@[k] == k,
        decreases POINT_COUNT - i,
    {
        p.push(i);
        i = i + 1;
    }
    p
}

/// The gradient index of the lattice corner `(i + di, j + dj, k + dk)`: the exclusive or of
/// the three tables at the corner's coordinates, each taken modulo `POINT_COUNT`.
pub fn lattice_index(
    perm_x: &Vec<usize>,
    perm_y: &Vec<usize>,
    perm_z: &Vec<usize>,
    i: usize,
    j: usize,
    k: usize,
) -> (r: usize)
    requires
        is_table(perm_x@),
        is_table(perm_y@),
        is_table(perm_z@),
    ensures
        r == perm_x@[(i % 256) as int] ^ perm_y@[(j % 256) as int] ^ perm_z@[(k % 256) as int],
        r < POINT_COUNT,
{
    let a = perm_x[i % 256];
    let b = perm_y[j % 256];
    let c = perm_z[k % 256];
    assert(a ^ b ^ c < 256) by (bit_vector)
        requires
            a < 256,
            b < 256,
            c < 256,
    ;
    a ^ b ^ c
}

} // verus!
