//! The random tables behind Perlin noise.
use vstd::prelude::*;
use crate::rtweekend::random_int;
use crate::vec3::Vec3;

verus! {

/// Number of lattice gradients and length of each permutation table.
pub const POINT_COUNT: usize = 256;

/// Largest magnitude of a gradient component.
pub const GRADIENT_LIMIT: i64 = 65536;

/// Gradient vectors and three permutations of `0..POINT_COUNT`, one per
/// axis, that hash lattice points to gradients.
pub struct Perlin {
    pub ranvec: Vec<Vec3>,
    pub perm_x: Vec<usize>,
    pub perm_y: Vec<usize>,
    pub perm_z: Vec<usize>,
}

/// `p` holds each of `0..n` exactly once.
pub open spec fn is_permutation(p: Seq<usize>, n: int) -> bool {
    &&& p.len() == n
    &&& forall|i: int| 0 <= i < n ==> #[trigger] p[i] < n
    &&& forall|i: int, j: int| 0 <= i < j < n ==> #[trigger] p[i] != #[trigger] p[j]
}

/// `s` with entries `i` and `j` exchanged.
pub open spec fn swapped(s: Seq<usize>, i: int, j: int) -> Seq<usize> {
    s.update(i, s[j]).update(j, s[i])
}

/// `p` after the first `k` exchanges of the shuffle: exchange `n - 1` with
/// `targets[n - 1]`, then `n - 2` with `targets[n - 2]`, and so on.
pub open spec fn shuffled(p: Seq<usize>, targets: Seq<usize>, n: int, k: int) -> Seq<usize>
    decreases k,
{
    if k <= 0 {
        p
    } else {
        swapped(shuffled(p, targets, n, k - 1), n - k, targets[n - k] as int)
    }
}

impl Perlin {
    pub open spec fn wf(self) -> bool {
        &&& self.ranvec@.len() == POINT_COUNT
        &&& forall|i: int|
            0 <= i < POINT_COUNT ==> #[trigger] self.ranvec@[i].within(GRADIENT_LIMIT as int)
        &&& is_permutation(self.perm_x@, POINT_COUNT as int)
        &&& is_permutation(self.perm_y@, POINT_COUNT as int)
        &&& is_permutation(self.perm_z@, POINT_COUNT as int)
    }

    /// Random gradients with components in `[-GRADIENT_LIMIT, GRADIENT_LIMIT]`
    /// and three random permutations.
    pub fn new() -> (p: Perlin)
        ensures
            p.wf(),
    {
        let mut ranvec: Vec<Vec3> = Vec::new();
        let mut i: usize = 0;
        while i < POINT_COUNT
            invariant
                0 <= i <= POINT_COUNT,
                ranvec@.len() == i,
                forall|k: int| 0 <= k < i ==> #[trigger] ranvec@[k].within(GRADIENT_LIMIT as int),
            decreases POINT_COUNT - i,
        {
            let lim = GRADIENT_LIMIT as isize;
            let x = random_int(-lim, lim) as i64;
            let y = random_int(-lim, lim) as i64;
            let z = random_int(-lim, lim) as i64;
            ranvec.push(Vec3::new(x, y, z));
            i = i + 1;
        }
        let perm_x = Self::perlin_generate_perm();
        let perm_y = Self::perlin_generate_perm();
        let perm_z = Self::perlin_generate_perm();
        Perlin { ranvec, perm_x, perm_y, perm_z }
    }

    /// A random permutation of `0..POINT_COUNT`.
    pub fn perlin_generate_perm() -> (p: Vec<usize>)
        ensures
            is_permutation(p@, POINT_COUNT as int),
    {
        let mut p: Vec<usize> = Vec::new();
        let mut i: usize = 0;
        while i < POINT_COUNT
            invariant
                0 <= i <= POINT_COUNT,
                p@.len() == i,
                forall|k: int| 0 <= k < i ==> #[trigger] p@[k] == k,
            decreases POINT_COUNT - i,
        {
            p.push(i);
            i = i + 1;
        }
        Self::permute(&mut p, POINT_COUNT);
        p
    }

    /// Shuffles the first `n` entries of `p` (Fisher–Yates): each position,
    /// from the last down, is exchanged with a uniformly drawn position at
    /// or below it.
    pub fn permute(p: &mut Vec<usize>, n: usize)
        requires
            n <= POINT_COUNT,
            is_permutation(old(p)@, n as int),
        ensures
            is_permutation(final(p)@, n as int),
    {
        let mut targets: Vec<usize> = Vec::new();
        let mut i: usize = 0;
        while i < n
            invariant
                0 <= i <= n <= POINT_COUNT,
                targets@.len() == i,
                forall|k: int| 0 <= k < i ==> #[trigger] targets@[k] <= k,
            decreases n - i,
        {
            targets.push(random_int(0, i as isize) as usize);
            i = i + 1;
        }
        Self::permute_with(p, &targets, n);
    }

    /// The Fisher–Yates shuffle of the first `n` entries of `p` with the
    /// drawn positions given: for `i` from `n - 1` down to `1`, entry `i` is
    /// exchanged with entry `targets[i]`.
    pub fn permute_with(p: &mut Vec<usize>, targets: &Vec<usize>, n: usize)
        requires
            n <= POINT_COUNT,
            is_permutation(old(p)@, n as int),
            targets@.len() == n,
            forall|k: int| 0 <= k < n ==> #[trigger] targets@[k] <= k,
        ensures
            final(p)@ == shuffled(old(p)@, targets@, n as int, if n == 0 { 0 } else { n - 1 }),
            is_permutation(final(p)@, n as int),
    {
        let ghost start = p@;
        let mut it: usize = 1;
        while it < n
            invariant
                1 <= it,
                it <= n || n == 0,
                n <= POINT_COUNT,
                targets@.len() == n,
                forall|k: int| 0 <= k < n ==> #[trigger] targets@[k] <= k,
                is_permutation(p@, n as int),
                p@ == shuffled(start, targets@, n as int, it - 1),
            decreases n - it,
        {
            let i = n - it;
            let target = targets[i];
            assert(targets@[i as int] <= i);
            let ghost before = p@;
            let tmp = p[i];
            let other = p[target];
            p.set(i, other);
            p.set(target, tmp);
            proof {
                assert(p@ == swapped(before, i as int, target as int));
                assert forall|a: int| 0 <= a < n implies #[trigger] p@[a] < n by {
                    if a == i {
                        assert(before[target as int] < n);
                    } else if a == target {
                        assert(before[i as int] < n);
                    } else {
                        assert(before[a] < n);
                    }
                }
                assert forall|a: int, b: int| 0 <= a < b < n implies #[trigger] p@[a] != #[trigger] p@[b] by {
                    let sa = if a == i { target as int } else if a == target { i as int } else { a };
                    let sb = if b == i { target as int } else if b == target { i as int } else { b };
                    assert(p@[a] == before[sa]);
                    assert(p@[b] == before[sb]);
                    assert(sa != sb);
                    if sa < sb {
                        assert(before[sa] != before[sb]);
                    } else {
                        assert(before[sb] != before[sa]);
                    }
                }
            }
            it = it + 1;
        }
    }

    /// Index of the gradient at lattice point `(i, j, k)`: the exclusive or
    /// of the three tables' entries at the coordinates' low eight bits.
    pub fn hash_index(&self, i: i64, j: i64, k: i64) -> (r: usize)
        requires
            self.wf(),
        ensures
            r < POINT_COUNT,
            r == self.perm_x@[(i & 255) as int] ^ self.perm_y@[(j & 255) as int] ^ self.perm_z@[(k & 255) as int],
    {
        let a = (i & 255) as usize;
        let b = (j & 255) as usize;
        let c = (k & 255) as usize;
        assert(0 <= i & 255 < 256) by (bit_vector);
        assert(0 <= j & 255 < 256) by (bit_vector);
        assert(0 <= k & 255 < 256) by (bit_vector);
        let x = self.perm_x[a];
        let y = self.perm_y[b];
        let z = self.perm_z[c];
        assert(x < 256 && y < 256 && z < 256);
        assert(x ^ y ^ z < 256) by (bit_vector)
            requires
                x < 256,
                y < 256,
                z < 256,
        ;
        x ^ y ^ z
    }
}

} // verus!
