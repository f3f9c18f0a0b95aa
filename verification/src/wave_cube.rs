//! The wave cube: an `N`-dimensional grid with side `S` of hypervector cells,
//! stored row-major (the last coordinate varies fastest).

use vstd::prelude::*;
use vstd::arithmetic::div_mod::{lemma_fundamental_div_mod, lemma_fundamental_div_mod_converse};
use crate::bits::words_for;
use crate::hypervector::{lemma_same_view_wf, xor_words, Hypervector};

verus! {

/// `s` to the power `k`: the number of cells of a `k`-dimensional grid with side `s`.
pub open spec fn cells_of(s: nat, k: nat) -> nat
    decreases k,
{
    if k == 0 {
        1
    } else {
        s * cells_of(s, (k - 1) as nat)
    }
}

/// Row-major index of the first `k` coordinates of `c` in a grid of side `s`.
pub open spec fn horner(c: Seq<usize>, s: nat, k: nat) -> nat
    decreases k,
{
    if k == 0 {
        0
    } else {
        horner(c, s, (k - 1) as nat) * s + c[k - 1] as nat
    }
}

/// `x` divided by `s` `k` times.
pub open spec fn shift_down(x: nat, s: nat, k: nat) -> nat
    decreases k,
{
    if k == 0 {
        x
    } else {
        shift_down(x, s, (k - 1) as nat) / s
    }
}

/// The last `k` base-`s` digits of `x`, most significant first.
pub open spec fn unrank(x: nat, s: nat, k: nat) -> Seq<usize>
    decreases k,
{
    if k == 0 {
        Seq::empty()
    } else {
        unrank(x / s, s, (k - 1) as nat).push((x % s) as usize)
    }
}

pub struct WaveCube<const N: usize, const S: usize> {
    pub dim: usize,
    pub cube: Vec<Hypervector>,
}

impl<const N: usize, const S: usize> View for WaveCube<N, S> {
    type V = Seq<(usize, Seq<u64>)>;

    /// The cells in row-major order.
    open spec fn view(&self) -> Seq<(usize, Seq<u64>)> {
        self.cube@.map_values(|h: Hypervector| h@)
    }
}

proof fn lemma_cells_positive(s: nat, k: nat)
    requires
        s > 0,
    ensures
        cells_of(s, k) > 0,
    decreases k,
{
    if k > 0 {
        lemma_cells_positive(s, (k - 1) as nat);
        assert(s * cells_of(s, (k - 1) as nat) > 0) by (nonlinear_arith)
            requires
                s > 0,
                cells_of(s, (k - 1) as nat) > 0,
        ;
    }
}

proof fn lemma_cells_monotone(s: nat, k: nat, m: nat)
    requires
        s > 0,
        k <= m,
    ensures
        cells_of(s, k) <= cells_of(s, m),
    decreases m - k,
{
    if k < m {
        lemma_cells_monotone(s, k, (m - 1) as nat);
        lemma_cells_positive(s, (m - 1) as nat);
        assert(cells_of(s, (m - 1) as nat) <= s * cells_of(s, (m - 1) as nat)) by (nonlinear_arith)
            requires
                s > 0,
        ;
    }
}

proof fn lemma_horner_monotone(c: Seq<usize>, s: nat, k: nat, m: nat)
    requires
        s > 0,
        k <= m,
    ensures
        horner(c, s, k) <= horner(c, s, m),
    decreases m - k,
{
    if k < m {
        lemma_horner_monotone(c, s, k, (m - 1) as nat);
        assert(horner(c, s, (m - 1) as nat) <= horner(c, s, (m - 1) as nat) * s) by (nonlinear_arith)
            requires
                s > 0,
        ;
    }
}

/// Coordinates below the side give an index below the number of cells.
pub proof fn lemma_horner_bound(c: Seq<usize>, s: nat, k: nat)
    requires
        k <= c.len(),
        forall|i: int| 0 <= i < k ==> c[i] < s,
    ensures
        horner(c, s, k) < cells_of(s, k),
    decreases k,
{
    if k > 0 {
        lemma_horner_bound(c, s, (k - 1) as nat);
        let h = horner(c, s, (k - 1) as nat);
        let n = cells_of(s, (k - 1) as nat);
        let d = c[k - 1] as nat;
        assert(h * s + d < s * n) by (nonlinear_arith)
            requires
                h < n,
                d < s,
        ;
    }
}

/// Reading the last `k` digits of `x < s^k` and folding them back gives `x`.
pub proof fn law_unrank_then_horner(x: nat, s: nat, k: nat)
    requires
        0 < s <= usize::MAX,
        x < cells_of(s, k),
    ensures
        unrank(x, s, k).len() == k,
        horner(unrank(x, s, k), s, k) == x,
    decreases k,
{
    if k > 0 {
        let n = cells_of(s, (k - 1) as nat);
        lemma_fundamental_div_mod(x as int, s as int);
        assert(x / s < n) by (nonlinear_arith)
            requires
                x < s * n,
                s > 0,
                x == s * (x / s) + x % s,
                x % s >= 0,
        ;
        law_unrank_then_horner(x / s, s, (k - 1) as nat);
        let u = unrank(x, s, k);
        let p = unrank(x / s, s, (k - 1) as nat);
        assert(u.drop_last() =~= p);
        lemma_horner_prefix(u, p, s, (k - 1) as nat);
        assert(u[k - 1] == (x % s) as usize);
        assert((x % s) < s);
        assert(horner(u, s, k) == horner(u, s, (k - 1) as nat) * s + u[k - 1] as nat);
        assert(horner(u, s, k) == (x / s) * s + x % s);
        assert((x / s) * s + x % s == x) by (nonlinear_arith)
            requires
                x == s * (x / s) + x % s,
        ;
    }
}

/// Horner values only depend on the coordinates they read.
pub proof fn lemma_horner_prefix(a: Seq<usize>, b: Seq<usize>, s: nat, k: nat)
    requires
        k <= a.len(),
        k <= b.len(),
        forall|i: int| 0 <= i < k ==> a[i] == b[i],
    ensures
        horner(a, s, k) == horner(b, s, k),
    decreases k,
{
    if k > 0 {
        lemma_horner_prefix(a, b, s, (k - 1) as nat);
    }
}

/// The digits of the index of in-range coordinates are those coordinates.
pub proof fn law_horner_then_unrank(c: Seq<usize>, s: nat, k: nat)
    requires
        s > 0,
        k <= c.len(),
        forall|i: int| 0 <= i < k ==> c[i] < s,
    ensures
        unrank(horner(c, s, k), s, k) == c.take(k as int),
    decreases k,
{
    if k > 0 {
        law_horner_then_unrank(c, s, (k - 1) as nat);
        let h = horner(c, s, (k - 1) as nat);
        let d = c[k - 1] as int;
        assert(h * s + d == h * s + d);
        lemma_fundamental_div_mod_converse((h * s + d) as int, s as int, h as int, d);
        assert((h * s + d) / (s as int) == h as int) by {
            lemma_fundamental_div_mod((h * s + d) as int, s as int);
            assert((h * s + d) / (s as int) == h as int) by (nonlinear_arith)
                requires
                    (h * s + d) == (s as int) * ((h * s + d) / (s as int)) + (h * s + d) % (s as int),
                    (h * s + d) % (s as int) == d,
                    s > 0,
            ;
        }
        assert(c.take(k as int) =~= c.take(k - 1).push(c[k - 1]));
    }
}

/// Writing a cell and reading it back gives what was written, and reading any
/// other in-range coordinates gives what was there before: distinct
/// coordinates name distinct cells.
pub proof fn law_write_then_read(
    cells: Seq<(usize, Seq<u64>)>,
    at: Seq<usize>,
    other: Seq<usize>,
    s: nat,
    k: nat,
    h: (usize, Seq<u64>),
)
    requires
        s > 0,
        at.len() == k,
        other.len() == k,
        forall|i: int| 0 <= i < k ==> at[i] < s,
        forall|i: int| 0 <= i < k ==> other[i] < s,
        cells.len() == cells_of(s, k),
    ensures
        horner(at, s, k) < cells.len(),
        horner(other, s, k) < cells.len(),
        cells.update(horner(at, s, k) as int, h)[horner(at, s, k) as int] == h,
        other != at ==> cells.update(horner(at, s, k) as int, h)[horner(other, s, k) as int]
            == cells[horner(other, s, k) as int],
{
    lemma_horner_bound(at, s, k);
    lemma_horner_bound(other, s, k);
    law_horner_then_unrank(at, s, k);
    law_horner_then_unrank(other, s, k);
    assert(at.take(k as int) =~= at);
    assert(other.take(k as int) =~= other);
}

/// Splitting the last `a + b` digits into the first `a` and the last `b`.
proof fn lemma_shift_down_comm(x: nat, s: nat, b: nat)
    requires
        s > 0,
    ensures
        shift_down(x / s, s, b) == shift_down(x, s, b) / s,
    decreases b,
{
    if b > 0 {
        let b1 = (b - 1) as nat;
        lemma_shift_down_comm(x, s, b1);
        assert(shift_down(x / s, s, b) == shift_down(x / s, s, b1) / s);
        assert(shift_down(x, s, b) == shift_down(x, s, b1) / s);
    }
}

proof fn lemma_unrank_step_front(x: nat, s: nat, m: nat)
    requires
        s > 0,
    ensures
        unrank(x, s, m + 1) == seq![(shift_down(x, s, m) % s) as usize] + unrank(x, s, m),
    decreases m,
{
    if m == 0 {
        let e = unrank(x / s, s, 0);
        assert(e == Seq::<usize>::empty());
        assert(unrank(x, s, 1) == e.push((x % s) as usize));
        assert(unrank(x, s, 1) =~= seq![(shift_down(x, s, 0) % s) as usize] + unrank(x, s, 0));
    } else {
        lemma_unrank_step_front(x / s, s, (m - 1) as nat);
        lemma_shift_down_comm(x, s, (m - 1) as nat);
        let d = (x % s) as usize;
        let lo = unrank(x / s, s, (m - 1) as nat);
        let head = seq![(shift_down(x / s, s, (m - 1) as nat) % s) as usize];
        assert(unrank(x / s, s, m) == head + lo);
        assert(unrank(x, s, m + 1) == unrank(x / s, s, m).push(d));
        assert(unrank(x, s, m) == lo.push(d));
        assert(shift_down(x, s, m) == shift_down(x, s, (m - 1) as nat) / s);
        assert(unrank(x, s, m + 1) =~= seq![(shift_down(x, s, m) % s) as usize] + unrank(x, s, m));
    }
}

impl<const N: usize, const S: usize> WaveCube<N, S> {
    /// The cube holds one cell per grid position.
    pub open spec fn wf(&self) -> bool {
        self.cube@.len() == cells_of(S as nat, N as nat)
    }

    /// Every cell is a well-formed vector of the cube's dimension.
    pub open spec fn cells_wf(&self) -> bool {
        forall|i: int|
            0 <= i < self.cube@.len() ==> (#[trigger] self.cube@[i]).dim == self.dim
                && self.cube@[i].wf()
    }

    /// `S` to the power `N`.
    pub fn total_cells() -> (total: usize)
        requires
            cells_of(S as nat, N as nat) <= usize::MAX,
        ensures
            total == cells_of(S as nat, N as nat),
    {
        let mut total: usize = 1;
        let mut k: usize = 0;
        while k < N
            invariant
                k <= N,
                total == cells_of(S as nat, k as nat),
                cells_of(S as nat, N as nat) <= usize::MAX,
            decreases N - k,
        {
            proof {
                assert(cells_of(S as nat, (k + 1) as nat) == S * cells_of(S as nat, k as nat));
                assert(total * S == S * total) by (nonlinear_arith);
                if S > 0 {
                    lemma_cells_monotone(S as nat, (k + 1) as nat, N as nat);
                } else {
                    assert(S * total == 0) by (nonlinear_arith)
                        requires
                            S == 0,
                    ;
                }
            }
            total = total * S;
            k = k + 1;
        }
        total
    }

    /// A cube of random well-formed cells of dimension `dim`.
    pub fn new(dim: usize) -> (c: Self)
        requires
            dim <= usize::MAX - 63,
            cells_of(S as nat, N as nat) <= usize::MAX,
        ensures
            c.dim == dim,
            c.wf(),
            c.cells_wf(),
    {
        let total = Self::total_cells();
        let mut cube: Vec<Hypervector> = Vec::with_capacity(total);
        let mut k: usize = 0;
        while k < total
            invariant
                k <= total,
                cube@.len() == k,
                dim <= usize::MAX - 63,
                forall|i: int| 0 <= i < k ==> (#[trigger] cube@[i]).dim == dim && cube@[i].wf(),
            decreases total - k,
        {
            let hv = Hypervector::random(dim);
            cube.push(hv);
            k = k + 1;
        }
        WaveCube { dim, cube }
    }

    /// Row-major index of `coords`.
    pub fn idx(&self, coords: &[usize; N]) -> (i: usize)
        requires
            horner(coords@, S as nat, N as nat) <= usize::MAX,
        ensures
            i == horner(coords@, S as nat, N as nat),
    {
        let mut idx: usize = 0;
        let mut i: usize = 0;
        while i < N
            invariant
                i <= N,
                coords@.len() == N,
                idx == horner(coords@, S as nat, i as nat),
                horner(coords@, S as nat, N as nat) <= usize::MAX,
            decreases N - i,
        {
            proof {
                if S > 0 {
                    lemma_horner_monotone(coords@, S as nat, (i + 1) as nat, N as nat);
                    assert(idx * S <= idx * S + coords@[i as int]);
                } else {
                    assert(idx * S == 0) by (nonlinear_arith)
                        requires
                            S == 0,
                    ;
                }
            }
            idx = idx * S + coords[i];
            i = i + 1;
        }
        idx
    }

    /// The coordinates of index `idx`: its last `N` base-`S` digits.
    pub fn coords_from_idx(&self, idx: usize) -> (coords: [usize; N])
        requires
            S > 0,
        ensures
            coords@ == unrank(idx as nat, S as nat, N as nat),
    {
        let mut coords = [0usize; N];
        let mut cur = idx;
        let mut i = N;
        proof {
            assert(coords@.subrange(N as int, N as int) =~= unrank(idx as nat, S as nat, 0));
        }
        while i > 0
            invariant
                i <= N,
                coords@.len() == N,
                S > 0,
                cur == shift_down(idx as nat, S as nat, (N - i) as nat),
                coords@.subrange(i as int, N as int) == unrank(idx as nat, S as nat, (N - i) as nat),
            decreases i,
        {
            i = i - 1;
            let ghost before = coords@;
            coords[i] = cur % S;
            proof {
                lemma_unrank_step_front(idx as nat, S as nat, (N - i - 1) as nat);
                assert(coords@.subrange(i as int, N as int) =~= seq![(cur % S) as usize]
                    + before.subrange(i + 1, N as int));
            }
            cur = cur / S;
        }
        assert(coords@.subrange(0, N as int) =~= coords@);
        coords
    }
}

/// The coordinates that a three-coordinate access reads: `x`, `y`, then `z`
/// when the cube has a third axis, zeros after that.
pub open spec fn cell_coords(n: nat, x: usize, y: usize, z: usize) -> Seq<usize> {
    Seq::new(n, |i: int| if i == 0 { x } else if i == 1 { y } else if i == 2 { z } else { 0usize })
}

/// Rust's remainder of signed integers (truncating, sign of the dividend).
pub open spec fn trunc_rem(a: int, b: int) -> int {
    if a >= 0 { a % b } else { -((-a) % b) }
}

/// Cells per step along `axis`: `S^(N-1-axis)`, or 1 for the last axis and beyond.
pub open spec fn axis_block(n: nat, s: nat, axis: nat) -> nat {
    if axis + 1 < n { cells_of(s, (n - 1 - axis) as nat) } else { 1 }
}

/// Cell `p` after a flow with the given block, stride and block shift: inside
/// each group of `stride` cells, the first `block` cells take the cells found
/// `sb` places further on, wrapping inside the group; the other cells stay.
pub open spec fn flow_source(p: int, block: int, stride: int, sb: int) -> int {
    if p % stride < block {
        (p / stride) * stride + (p % stride + sb) % stride
    } else {
        p
    }
}

/// The cells after a flow of `shift` steps along `axis` of a grid with side `s`
/// and `n` axes.
pub open spec fn flow_view<V>(cells: Seq<V>, n: nat, s: nat, axis: nat, shift: int) -> Seq<V> {
    if shift == 0 || s == 0 || shift % (s as int) == 0 {
        cells
    } else {
        let block = axis_block(n, s, axis) as int;
        let stride = block * s;
        let sb = (shift % (s as int)) * block;
        Seq::new(cells.len(), |p: int| cells[flow_source(p, block, stride, sb)])
    }
}

/// A flow needs no arithmetic beyond the machine's and reads no cell outside the grid.
pub open spec fn flow_defined(n: nat, s: nat, axis: nat, shift: int) -> bool {
    shift == 0 || {
        &&& 0 < s <= isize::MAX
        &&& trunc_rem(shift, s as int) + s <= isize::MAX
        &&& (shift % (s as int) == 0 || (axis < usize::MAX && n > 0))
    }
}

/// Shifting a truncated remainder into range gives the Euclidean remainder.
proof fn lemma_wrap_rem(a: int, b: int)
    requires
        b > 0,
    ensures
        0 <= trunc_rem(a, b) + b,
        (trunc_rem(a, b) + b) % b == a % b,
{
    if a >= 0 {
        lemma_fundamental_div_mod(a, b);
        lemma_fundamental_div_mod_converse(a % b + b, b, 1, a % b);
    } else {
        let m = (-a) % b;
        let q = (-a) / b;
        lemma_fundamental_div_mod(-a, b);
        assert(-a == b * q + m);
        if m == 0 {
            assert(a == (-q) * b + 0) by (nonlinear_arith)
                requires
                    -a == b * q + m,
                    m == 0,
            ;
            lemma_fundamental_div_mod_converse(a, b, -q, 0);
            lemma_fundamental_div_mod_converse(b, b, 1, 0);
        } else {
            assert(a == (-q - 1) * b + (b - m)) by (nonlinear_arith)
                requires
                    -a == b * q + m,
            ;
            lemma_fundamental_div_mod_converse(a, b, -q - 1, b - m);
            lemma_fundamental_div_mod_converse(b - m, b, 0, b - m);
        }
    }
}

proof fn lemma_cells_add(s: nat, a: nat, b: nat)
    ensures
        cells_of(s, a + b) == cells_of(s, a) * cells_of(s, b),
    decreases b,
{
    if b > 0 {
        lemma_cells_add(s, a, (b - 1) as nat);
        let c = cells_of(s, (a + b - 1) as nat);
        assert(((a + (b - 1)) as nat) == (a + b - 1) as nat);
        assert(c == cells_of(s, a) * cells_of(s, (b - 1) as nat));
        assert(cells_of(s, a + b) == s * c);
        assert(cells_of(s, b) == s * cells_of(s, (b - 1) as nat));
        assert(s * (cells_of(s, a) * cells_of(s, (b - 1) as nat)) == cells_of(s, a) * (s * cells_of(
            s,
            (b - 1) as nat,
        ))) by (nonlinear_arith);
    } else {
        assert(cells_of(s, 0) == 1);
        assert(a + b == a);
    }
}

proof fn lemma_cells_one(s: nat)
    ensures
        cells_of(s, 1) == s,
{
    assert(cells_of(s, 0) == 1);
    assert(cells_of(s, 1) == s * cells_of(s, 0));
}

impl<const N: usize, const S: usize> WaveCube<N, S> {
    /// The cell at `(x, y, z)`; `z` is read only when the cube has a third axis.
    pub fn cell(&self, x: usize, y: usize, z: usize) -> (hv: Hypervector)
        requires
            N >= 2,
            horner(cell_coords(N as nat, x, y, z), S as nat, N as nat) < self.cube@.len(),
        ensures
            hv@ == self@[horner(cell_coords(N as nat, x, y, z), S as nat, N as nat) as int],
    {
        let mut coords = [0usize; N];
        coords[0] = x;
        coords[1] = y;
        if N >= 3 {
            coords[2] = z;
        }
        assert(coords@ =~= cell_coords(N as nat, x, y, z));
        assert(self.cube.len() == self.cube@.len());
        let i = self.idx(&coords);
        self.cube[i].clone()
    }

    /// Replaces the cell at `(x, y, z)` by a copy of `hv`.
    pub fn write_cell(&mut self, x: usize, y: usize, z: usize, hv: &Hypervector)
        requires
            N >= 2,
            horner(cell_coords(N as nat, x, y, z), S as nat, N as nat) < old(self).cube@.len(),
        ensures
            final(self).dim == old(self).dim,
            final(self).cube@.len() == old(self).cube@.len(),
            final(self)@ == old(self)@.update(
                horner(cell_coords(N as nat, x, y, z), S as nat, N as nat) as int,
                hv@,
            ),
            old(self).cells_wf() && hv.dim == old(self).dim && hv.wf() ==> final(self).cells_wf(),
    {
        let mut coords = [0usize; N];
        coords[0] = x;
        coords[1] = y;
        if N >= 3 {
            coords[2] = z;
        }
        assert(coords@ =~= cell_coords(N as nat, x, y, z));
        assert(self.cube.len() == self.cube@.len());
        let i = self.idx(&coords);
        let c = hv.clone();
        proof {
            if hv.wf() {
                lemma_same_view_wf(*hv, c);
            }
        }
        self.cube.set(i, c);
        assert(self@ =~= old(self)@.update(i as int, hv@));
    }

    /// The cell at `coords`.
    pub fn cell_at(&self, coords: &[usize; N]) -> (hv: Hypervector)
        requires
            horner(coords@, S as nat, N as nat) < self.cube@.len(),
        ensures
            hv@ == self@[horner(coords@, S as nat, N as nat) as int],
    {
        assert(self.cube.len() == self.cube@.len());
        self.cube[self.idx(coords)].clone()
    }

    /// Replaces the cell at `coords` by a copy of `hv`.
    pub fn write_at(&mut self, coords: &[usize; N], hv: &Hypervector)
        requires
            horner(coords@, S as nat, N as nat) < old(self).cube@.len(),
        ensures
            final(self).dim == old(self).dim,
            final(self).cube@.len() == old(self).cube@.len(),
            final(self)@ == old(self)@.update(horner(coords@, S as nat, N as nat) as int, hv@),
    {
        assert(self.cube.len() == self.cube@.len());
        let i = self.idx(coords);
        self.cube.set(i, hv.clone());
        assert(self@ =~= old(self)@.update(i as int, hv@));
    }

    /// Flows the cells `shift` steps along `axis` (see `flow_view`).
    pub fn wave_flow(&mut self, axis: usize, shift: isize)
        requires
            old(self).wf(),
            flow_defined(N as nat, S as nat, axis as nat, shift as int),
        ensures
            final(self).dim == old(self).dim,
            final(self).cube@.len() == old(self).cube@.len(),
            final(self)@ == flow_view(old(self)@, N as nat, S as nat, axis as nat, shift as int),
            old(self).cells_wf() ==> final(self).cells_wf(),
    {
        if shift == 0 {
            return;
        }
        proof {
            lemma_wrap_rem(shift as int, S as int);
        }
        let s = ((shift % S as isize) + S as isize) as usize % S;
        assert(s as int == (shift as int) % (S as int));
        if s == 0 {
            return;
        }
        let total = self.cube.len();
        let ghost axis_c: nat = if axis + 1 < N { axis as nat } else { (N - 1) as nat };
        let mut block: usize = 1;
        let mut d = N;
        proof {
            lemma_cells_add(S as nat, axis_c, (N - axis_c) as nat);
            lemma_cells_positive(S as nat, axis_c);
            lemma_cells_positive(S as nat, (N - axis_c) as nat);
        }
        while d > axis + 1
            invariant
                axis < usize::MAX,
                d <= N,
                axis + 1 < N ==> d >= axis + 1,
                axis + 1 >= N ==> d == N,
                block == cells_of(S as nat, (N - d) as nat),
                cells_of(S as nat, N as nat) <= usize::MAX,
                S > 0,
            decreases d,
        {
            proof {
                lemma_cells_monotone(S as nat, (N - d + 1) as nat, N as nat);
                assert(block * S == S * block) by (nonlinear_arith);
            }
            block = block * S;
            d = d - 1;
        }
        assert(block == axis_block(N as nat, S as nat, axis as nat));
        assert(block == cells_of(S as nat, (N - 1 - axis_c) as nat));
        proof {
            assert(N > 0);
            lemma_cells_positive(S as nat, (N - 1 - axis_c) as nat);
            lemma_cells_add(S as nat, 1, (N - 1 - axis_c) as nat);
            assert((1 + (N - 1 - axis_c)) as nat == (N - axis_c) as nat);
            assert(S * block == block * S) by (nonlinear_arith);
            lemma_cells_one(S as nat);
            lemma_cells_monotone(S as nat, (N - axis_c) as nat, N as nat);
        }
        let stride = block * S;
        assert(s * block < block * S) by (nonlinear_arith)
            requires
                s < S,
                block > 0,
        ;
        let shift_blocks = s * block;
        assert(stride == cells_of(S as nat, (N - axis_c) as nat)) by (nonlinear_arith)
            requires
                stride == block * S,
                cells_of(S as nat, (1 + (N - 1 - axis_c)) as nat) == cells_of(S as nat, 1) * cells_of(S as nat, (N - 1 - axis_c) as nat),
                cells_of(S as nat, 1) == S,
                block == cells_of(S as nat, (N - 1 - axis_c) as nat),
                (1 + (N - 1 - axis_c)) as nat == (N - axis_c) as nat,
        ;
        assert(block <= stride) by (nonlinear_arith)
            requires
                stride == block * S,
                S > 0,
        ;
        let ghost groups: nat = cells_of(S as nat, axis_c);
        assert(total == groups * stride);
        assert(shift_blocks < stride) by (nonlinear_arith)
            requires
                shift_blocks == s * block,
                s < S,
                stride == block * S,
                block > 0,
        ;
        let ghost old_view = self@;
        let ghost cwf = self.cells_wf();
        let mut new_cube: Vec<Hypervector> = Vec::with_capacity(total);
        let mut k: usize = 0;
        while k < total
            invariant
                k <= total,
                total == self.cube@.len(),
                new_cube@.len() == k,
                forall|i: int| 0 <= i < k ==> (#[trigger] new_cube@[i])@ == self.cube@[i]@,
                cwf == self.cells_wf(),
                cwf ==> forall|i: int| 0 <= i < k ==> (#[trigger] new_cube@[i]).dim == self.dim && new_cube@[i].wf(),
            decreases total - k,
        {
            new_cube.push(self.cube[k].clone());
            proof {
                if cwf {
                    lemma_same_view_wf(self.cube@[k as int], new_cube@[k as int]);
                }
            }
            k = k + 1;
        }
        let mut base: usize = 0;
        let ghost mut g: nat = 0;
        while base < total
            invariant
                total == self.cube@.len(),
                total == groups * stride,
                base == g * stride,
                g <= groups,
                stride > 0,
                0 < block <= stride,
                shift_blocks < stride,
                shift_blocks == s * block,
                s < S,
                stride == block * S,
                new_cube@.len() == total,
                old_view == self@,
                cwf == self.cells_wf(),
                cwf ==> forall|i: int| 0 <= i < total ==> (#[trigger] new_cube@[i]).dim == self.dim && new_cube@[i].wf(),
                forall|p: int|
                    0 <= p < total ==> (#[trigger] new_cube@[p])@ == if p < base {
                        old_view[flow_source(p, block as int, stride as int, shift_blocks as int)]
                    } else {
                        old_view[p]
                    },
            decreases total - base,
        {
            proof {
                assert(g < groups) by (nonlinear_arith)
                    requires
                        g * stride < groups * stride,
                ;
                assert(base + stride <= total) by (nonlinear_arith)
                    requires
                        base == g * stride,
                        g + 1 <= groups,
                        total == groups * stride,
                ;
            }
            let mut offset: usize = 0;
            while offset < block
                invariant
                    base + stride <= total,
                    base == g * stride,
                    offset <= block,
                    stride > 0,
                    0 < block <= stride,
                    shift_blocks < stride,
                    shift_blocks == s * block,
                    s < S,
                    stride == block * S,
                    total == self.cube@.len(),
                    new_cube@.len() == total,
                    old_view == self@,
                    cwf == self.cells_wf(),
                    cwf ==> forall|i: int| 0 <= i < total ==> (#[trigger] new_cube@[i]).dim == self.dim && new_cube@[i].wf(),
                    forall|p: int|
                        0 <= p < total ==> (#[trigger] new_cube@[p])@ == if p < base || (base <= p
                            < base + offset) {
                            old_view[flow_source(p, block as int, stride as int, shift_blocks as int)]
                        } else {
                            old_view[p]
                        },
                decreases block - offset,
            {
                assert(offset + shift_blocks < stride) by (nonlinear_arith)
                    requires
                        offset < block,
                        shift_blocks == s * block,
                        s < S,
                        stride == block * S,
                ;
                let src = base + ((offset + shift_blocks) % stride);
                let dst = base + offset;
                proof {
                    lemma_fundamental_div_mod_converse(dst as int, stride as int, g as int, offset as int);
                    assert(dst as int == g * stride + offset);
                }
                let c = self.cube[src].clone();
                proof {
                    if cwf {
                        lemma_same_view_wf(self.cube@[src as int], c);
                    }
                }
                new_cube.set(dst, c);
                offset = offset + 1;
            }
            proof {
                assert forall|p: int| 0 <= p < total implies (#[trigger] new_cube@[p])@ == if p < base
                    + stride {
                    old_view[flow_source(p, block as int, stride as int, shift_blocks as int)]
                } else {
                    old_view[p]
                } by {
                    if base + block <= p < base + stride {
                        lemma_fundamental_div_mod_converse(p, stride as int, g as int, p - base);
                    }
                }
            }
            base = base + stride;
            proof {
                g = g + 1;
                assert(base == g * stride) by (nonlinear_arith)
                    requires
                        base == (g - 1) * stride + stride,
                ;
            }
        }
        self.cube = new_cube;
        assert(self@ =~= flow_view(old_view, N as nat, S as nat, axis as nat, shift as int));
    }

    /// Flow along the first axis.
    pub fn wave_flow_x(&mut self, shift: isize)
        requires
            old(self).wf(),
            flow_defined(N as nat, S as nat, 0, shift as int),
        ensures
            final(self).dim == old(self).dim,
            final(self).cube@.len() == old(self).cube@.len(),
            final(self)@ == flow_view(old(self)@, N as nat, S as nat, 0, shift as int),
            old(self).cells_wf() ==> final(self).cells_wf(),
    {
        self.wave_flow(0, shift)
    }

    /// Flow along the second axis.
    pub fn wave_flow_y(&mut self, shift: isize)
        requires
            old(self).wf(),
            flow_defined(N as nat, S as nat, 1, shift as int),
        ensures
            final(self).dim == old(self).dim,
            final(self).cube@.len() == old(self).cube@.len(),
            final(self)@ == flow_view(old(self)@, N as nat, S as nat, 1, shift as int),
            old(self).cells_wf() ==> final(self).cells_wf(),
    {
        self.wave_flow(1, shift)
    }

    /// Flow along the third axis.
    pub fn wave_flow_z(&mut self, shift: isize)
        requires
            old(self).wf(),
            flow_defined(N as nat, S as nat, 2, shift as int),
        ensures
            final(self).dim == old(self).dim,
            final(self).cube@.len() == old(self).cube@.len(),
            final(self)@ == flow_view(old(self)@, N as nat, S as nat, 2, shift as int),
            old(self).cells_wf() ==> final(self).cells_wf(),
    {
        self.wave_flow(2, shift)
    }

    /// Flow along the fourth axis.
    pub fn wave_flow_w(&mut self, shift: isize)
        requires
            old(self).wf(),
            flow_defined(N as nat, S as nat, 3, shift as int),
        ensures
            final(self).dim == old(self).dim,
            final(self).cube@.len() == old(self).cube@.len(),
            final(self)@ == flow_view(old(self)@, N as nat, S as nat, 3, shift as int),
            old(self).cells_wf() ==> final(self).cells_wf(),
    {
        self.wave_flow(3, shift)
    }
}

/// A cell bound with another vector, over the cell's own words.
pub open spec fn bind_view(h: (usize, Seq<u64>), o: (usize, Seq<u64>)) -> (usize, Seq<u64>) {
    (h.0, xor_words(h.1, o.1, words_for(h.0 as nat)))
}

/// Index of the cell at `(x, y, z)`.
pub open spec fn cell_index(n: nat, s: nat, x: usize, y: usize, z: usize) -> int {
    horner(cell_coords(n, x, y, z), s, n) as int
}

/// A cell that can be bound with `o`: its words cover its dimension and so do `o`'s.
pub open spec fn bindable(h: (usize, Seq<u64>), o: (usize, Seq<u64>)) -> bool {
    &&& h.0 <= usize::MAX - 63
    &&& h.1.len() >= words_for(h.0 as nat)
    &&& o.1.len() >= words_for(h.0 as nat)
}

impl<const N: usize, const S: usize> WaveCube<N, S> {
    /// The cells after absorbing the three triangle vertices: the corner
    /// `(0,0,0)` is bound with the syntax vertex, `(S-1, S/2, S/2)` with the
    /// semantics vertex, `(S/2, S/2, S-1)` with the chaos vertex, and the cube
    /// then flows one step along the first three axes.
    pub open spec fn absorbed(
        cells: Seq<(usize, Seq<u64>)>,
        syn: (usize, Seq<u64>),
        sem: (usize, Seq<u64>),
        chaos: (usize, Seq<u64>),
    ) -> Seq<(usize, Seq<u64>)> {
        let ms = (S / 2) as usize;
        let i0 = cell_index(N as nat, S as nat, 0, 0, 0);
        let c1 = cells.update(i0, bind_view(cells[i0], syn));
        let i1 = cell_index(N as nat, S as nat, (S - 1) as usize, ms, ms);
        let c2 = c1.update(i1, bind_view(c1[i1], sem));
        let i2 = cell_index(N as nat, S as nat, ms, ms, (S - 1) as usize);
        let c3 = c2.update(i2, bind_view(c2[i2], chaos));
        flow_view(
            flow_view(flow_view(c3, N as nat, S as nat, 0, 1), N as nat, S as nat, 1, 1),
            N as nat,
            S as nat,
            2,
            1,
        )
    }

    /// The three cells that absorbing touches exist and can be bound, and the
    /// three flows are defined.
    pub open spec fn can_absorb(
        &self,
        syn: (usize, Seq<u64>),
        sem: (usize, Seq<u64>),
        chaos: (usize, Seq<u64>),
    ) -> bool {
        let ms = (S / 2) as usize;
        let i0 = cell_index(N as nat, S as nat, 0, 0, 0);
        let i1 = cell_index(N as nat, S as nat, (S - 1) as usize, ms, ms);
        let i2 = cell_index(N as nat, S as nat, ms, ms, (S - 1) as usize);
        &&& N >= 2
        &&& S >= 1
        &&& self.wf()
        &&& 0 <= i0 < self@.len()
        &&& 0 <= i1 < self@.len()
        &&& 0 <= i2 < self@.len()
        &&& bindable(self@[i0], syn)
        &&& bindable(self@[i1], sem)
        &&& bindable(self@[i2], chaos)
        &&& flow_defined(N as nat, S as nat, 0, 1)
        &&& flow_defined(N as nat, S as nat, 1, 1)
        &&& flow_defined(N as nat, S as nat, 2, 1)
    }

    /// Binds the three triangle vertices into their cells and flows the cube
    /// one step along the first three axes.
    pub fn absorb_from_triangle(
        &mut self,
        triangle_syntax: &Hypervector,
        triangle_semantics: &Hypervector,
        triangle_chaos: &Hypervector,
    )
        requires
            old(self).can_absorb(triangle_syntax@, triangle_semantics@, triangle_chaos@),
        ensures
            final(self).dim == old(self).dim,
            final(self).wf(),
            final(self)@ == Self::absorbed(
                old(self)@,
                triangle_syntax@,
                triangle_semantics@,
                triangle_chaos@,
            ),
    {
        let ms = S / 2;
        let ghost cells = self@;
        let ghost i0 = cell_index(N as nat, S as nat, 0, 0, 0);
        let ghost i1 = cell_index(N as nat, S as nat, (S - 1) as usize, ms, ms);
        let ghost i2 = cell_index(N as nat, S as nat, ms, ms, (S - 1) as usize);
        assert(self.cube@[i0]@ == self@[i0]);
        let a = self.cell(0, 0, 0);
        let a2 = a.bind(triangle_syntax);
        self.write_cell(0, 0, 0, &a2);
        let ghost c1 = self@;
        assert(self.cube@[i1]@ == self@[i1]);
        assert(bindable(c1[i1], triangle_semantics@));
        let b = self.cell(S - 1, ms, ms);
        let b2 = b.bind(triangle_semantics);
        self.write_cell(S - 1, ms, ms, &b2);
        let ghost c2 = self@;
        assert(self.cube@[i2]@ == self@[i2]);
        assert(bindable(c2[i2], triangle_chaos@));
        let c = self.cell(ms, ms, S - 1);
        let c2v = c.bind(triangle_chaos);
        self.write_cell(ms, ms, S - 1, &c2v);
        self.wave_flow_x(1);
        self.wave_flow_y(1);
        self.wave_flow_z(1);
    }
}

impl<const S: usize> WaveCube<3, S> {
    /// Row-major index of `(x, y, z)` in a three-dimensional cube.
    pub fn idx_3d(&self, x: usize, y: usize, z: usize) -> (i: usize)
        requires
            (x * S + y) * S + z <= usize::MAX,
        ensures
            i == (x * S + y) * S + z,
    {
        proof {
            assert(x * S <= (x * S + y) * S + z || S == 0) by (nonlinear_arith)
                requires
                    x * S + y >= 0,
                    z >= 0,
            ;
            assert((x * S + y) * S <= (x * S + y) * S + z);
            if S > 0 {
                assert(x * S + y <= (x * S + y) * S) by (nonlinear_arith)
                    requires
                        S > 0,
                        x * S + y >= 0,
                ;
            } else {
                assert(x * S == 0) by (nonlinear_arith)
                    requires
                        S == 0,
                ;
            }
        }
        (x * S + y) * S + z
    }
}

/// The cells after `write_cell(x, y, z, &cell(x, y, z).bind(o))` on a cube
/// with `n` axes of side `s`, as the contracts of `cell`, `bind` and
/// `write_cell` state it.
pub open spec fn bind_cell_step(
    cells: Seq<(usize, Seq<u64>)>,
    n: nat,
    s: nat,
    x: usize,
    y: usize,
    z: usize,
    o: (usize, Seq<u64>),
) -> Seq<(usize, Seq<u64>)> {
    let i = horner(cell_coords(n, x, y, z), s, n) as int;
    cells.update(i, bind_view(cells[i], o))
}

/// Absorbing the triangle is the sequence of calls it stands for: the corner
/// `(0,0,0)` bound with the syntax vertex, then `(S-1, S/2, S/2)` with the
/// semantics vertex, then `(S/2, S/2, S-1)` with the chaos vertex, each cell
/// read after the writes before it, and then `wave_flow_x(1)`,
/// `wave_flow_y(1)` and `wave_flow_z(1)`.
pub proof fn law_absorb_is_binds_then_flows<const N: usize, const S: usize>(
    cells: Seq<(usize, Seq<u64>)>,
    syn: (usize, Seq<u64>),
    sem: (usize, Seq<u64>),
    chaos: (usize, Seq<u64>),
)
    ensures
        WaveCube::<N, S>::absorbed(cells, syn, sem, chaos) == {
            let ms = (S / 2) as usize;
            let c1 = bind_cell_step(cells, N as nat, S as nat, 0, 0, 0, syn);
            let c2 = bind_cell_step(c1, N as nat, S as nat, (S - 1) as usize, ms, ms, sem);
            let c3 = bind_cell_step(c2, N as nat, S as nat, ms, ms, (S - 1) as usize, chaos);
            flow_view(
                flow_view(flow_view(c3, N as nat, S as nat, 0, 1), N as nat, S as nat, 1, 1),
                N as nat,
                S as nat,
                2,
                1,
            )
        },
{
}

} // verus!
