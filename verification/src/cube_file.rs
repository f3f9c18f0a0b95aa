//! The binary cube file: a little-endian `u32` header `[1, S, N, dim]`
//! followed by the words of every cell, little-endian, in row-major order.
//! Older files start with the side length instead of the version `1` and are
//! always three-dimensional.

use vstd::prelude::*;
use vstd::arithmetic::div_mod::{lemma_fundamental_div_mod, lemma_fundamental_div_mod_converse};
use vstd::bytes::{
    lemma_auto_spec_u32_to_from_le_bytes, lemma_auto_spec_u64_to_from_le_bytes,
    spec_u32_from_le_bytes, spec_u32_to_le_bytes, spec_u64_from_le_bytes, spec_u64_to_le_bytes,
    u32_from_le_bytes, u32_to_le_bytes, u64_from_le_bytes,
};
use crate::bits::words_for;
use crate::hypervector::{words_le_bytes, Hypervector};
use crate::wave_cube::{cells_of, WaveCube};

verus! {

/// Why a cube file does not fit the cube type it is loaded into.
pub enum CubeLoadError {
    /// The file's side length differs from `S`.
    SideMismatch { found: usize, expected: usize },
    /// The file's number of axes differs from `N`.
    NdimMismatch { found: usize, expected: usize },
    /// The file holds a different number of whole cells than `S^N`.
    SizeMismatch { cells: usize, expected: usize },
}

/// The header a cube of side `s`, `n` axes and dimension `dim` is written with.
pub open spec fn header_bytes(s: usize, n: usize, dim: usize) -> Seq<u8> {
    spec_u32_to_le_bytes(1u32) + spec_u32_to_le_bytes(s as u32) + spec_u32_to_le_bytes(n as u32)
        + spec_u32_to_le_bytes(dim as u32)
}

/// The words of all cells, each cell's words little-endian, in order.
pub open spec fn cells_bytes(cells: Seq<(usize, Seq<u64>)>) -> Seq<u8>
    decreases cells.len(),
{
    if cells.len() == 0 {
        Seq::empty()
    } else {
        cells_bytes(cells.drop_last()) + words_le_bytes(cells.last().1)
    }
}

/// The little-endian `u32` at byte `off`.
pub open spec fn field_at(data: Seq<u8>, off: int) -> nat {
    spec_u32_from_le_bytes(data.subrange(off, off + 4)) as nat
}

/// The little-endian `u64` at byte `off`.
pub open spec fn word_at(data: Seq<u8>, off: int) -> u64 {
    spec_u64_from_le_bytes(data.subrange(off, off + 8))
}

/// `(side, ndim, dim)` as the header gives them (old files are three-dimensional).
pub open spec fn header_fields(data: Seq<u8>) -> (nat, nat, nat) {
    if field_at(data, 0) == 1 {
        (field_at(data, 4), field_at(data, 8), field_at(data, 12))
    } else {
        (field_at(data, 0), 3, field_at(data, 12))
    }
}

/// The `count` cells of dimension `dim` stored after the header.
pub open spec fn stored_cells(data: Seq<u8>, dim: nat, count: nat) -> Seq<(usize, Seq<u64>)> {
    let wc = words_for(dim);
    Seq::new(
        count,
        |k: int| (dim as usize, Seq::new(wc, |i: int| word_at(data, 16 + (k * wc + i) * 8))),
    )
}

/// What loading `data` into a cube with side `s` and `n` axes gives: the
/// dimension and the cells, or the first check that fails.
pub open spec fn load_outcome(data: Seq<u8>, s: nat, n: nat) -> Result<
    (usize, Seq<(usize, Seq<u64>)>),
    CubeLoadError,
> {
    let (side, ndim, dim) = header_fields(data);
    if side != s {
        Err(CubeLoadError::SideMismatch { found: side as usize, expected: s as usize })
    } else if ndim != n {
        Err(CubeLoadError::NdimMismatch { found: ndim as usize, expected: n as usize })
    } else {
        let count = ((data.len() - 16) as nat) / (words_for(dim) * 8);
        if count != cells_of(s, n) {
            Err(CubeLoadError::SizeMismatch { cells: count as usize, expected: cells_of(s, n) as usize })
        } else {
            Ok((dim as usize, stored_cells(data, dim, count)))
        }
    }
}

/// Loading `data` takes no arithmetic beyond the machine's and no division by zero.
pub open spec fn load_defined(data: Seq<u8>, s: nat, n: nat) -> bool {
    let (side, ndim, dim) = header_fields(data);
    &&& data.len() >= 16
    &&& dim + 63 <= usize::MAX
    &&& (side == s && ndim == n) ==> dim > 0
}

pub(crate) fn push_all(out: &mut Vec<u8>, src: &Vec<u8>)
    ensures
        final(out)@ == old(out)@ + src@,
{
    let mut k: usize = 0;
    while k < src.len()
        invariant
            k <= src@.len(),
            out@ == old(out)@ + src@.take(k as int),
        decreases src@.len() - k,
    {
        out.push(src[k]);
        assert(src@.take(k as int + 1) =~= src@.take(k as int).push(src@[k as int]));
        k = k + 1;
    }
    assert(src@.take(src@.len() as int) =~= src@);
}

fn read_u32_field(data: &[u8], off: usize) -> (v: usize)
    requires
        off + 4 <= data@.len(),
    ensures
        v == field_at(data@, off as int),
{
    assert(data@.len() == data.len());
    u32_from_le_bytes(&data[off..off + 4]) as usize
}

impl<const N: usize, const S: usize> WaveCube<N, S> {
    /// The cube in the binary file format.
    pub fn to_bin_bytes(&self) -> (bytes: Vec<u8>)
        ensures
            bytes@ == header_bytes(S, N, self.dim) + cells_bytes(self@),
    {
        let mut out: Vec<u8> = Vec::new();
        push_all(&mut out, &u32_to_le_bytes(1u32));
        push_all(&mut out, &u32_to_le_bytes(S as u32));
        push_all(&mut out, &u32_to_le_bytes(N as u32));
        push_all(&mut out, &u32_to_le_bytes(self.dim as u32));
        assert(out@ =~= header_bytes(S, N, self.dim));
        let ghost head = out@;
        let mut k: usize = 0;
        while k < self.cube.len()
            invariant
                k <= self.cube@.len(),
                out@ == head + cells_bytes(self@.take(k as int)),
                self@.len() == self.cube@.len(),
            decreases self.cube@.len() - k,
        {
            let bytes = self.cube[k].to_bytes();
            push_all(&mut out, &bytes);
            assert(self@.take(k as int + 1).drop_last() =~= self@.take(k as int));
            assert(self@.take(k as int + 1).last() == self@[k as int]);
            assert(self@[k as int] == self.cube@[k as int]@);
            assert(out@ =~= head + cells_bytes(self@.take(k as int + 1)));
            k = k + 1;
        }
        assert(self@.take(self@.len() as int) =~= self@);
        out
    }

    /// Loads a cube from bytes in the binary file format.
    pub fn from_bin_bytes(data: &[u8]) -> (res: Result<Self, CubeLoadError>)
        requires
            cells_of(S as nat, N as nat) <= usize::MAX,
            load_defined(data@, S as nat, N as nat),
        ensures
            match res {
                Ok(c) => c.wf() && load_outcome(data@, S as nat, N as nat) == Ok::<
                    (usize, Seq<(usize, Seq<u64>)>),
                    CubeLoadError,
                >((c.dim, c@)),
                Err(e) => load_outcome(data@, S as nat, N as nat) == Err::<
                    (usize, Seq<(usize, Seq<u64>)>),
                    CubeLoadError,
                >(e),
            },
    {
        let v0 = read_u32_field(data, 0);
        let v1 = read_u32_field(data, 4);
        let (file_side, file_ndim, dim) = if v0 == 1 {
            let ndim = read_u32_field(data, 8);
            let d = read_u32_field(data, 12);
            (v1, ndim, d)
        } else {
            let d = read_u32_field(data, 12);
            (v0, 3usize, d)
        };
        if file_side != S {
            return Err(CubeLoadError::SideMismatch { found: file_side, expected: S });
        }
        if file_ndim != N {
            return Err(CubeLoadError::NdimMismatch { found: file_ndim, expected: N });
        }
        let wc = (dim + 63) / 64;
        let data_len = data.len() - 16;
        let cell_count = data_len / (wc * 8);
        let total = Self::total_cells();
        if cell_count != total {
            return Err(CubeLoadError::SizeMismatch { cells: cell_count, expected: total });
        }
        let ghost m = (wc * 8) as int;
        proof {
            let dl = data_len as int;
            lemma_fundamental_div_mod(dl, m);
            assert(cell_count * m <= dl) by (nonlinear_arith)
                requires
                    dl == m * (dl / m) + dl % m,
                    dl % m >= 0,
                    cell_count == dl / m,
            ;
        }
        let mut cube: Vec<Hypervector> = Vec::with_capacity(cell_count);
        let mut off: usize = 16;
        let mut k: usize = 0;
        while k < cell_count
            invariant
                k <= cell_count,
                wc == words_for(dim as nat),
                m == wc * 8,
                m > 0,
                cell_count * m <= data_len,
                data_len + 16 == data@.len(),
                data@.len() == data.len(),
                off == 16 + k * m,
                cube@.len() == k,
                forall|j: int|
                    0 <= j < k ==> (#[trigger] cube@[j])@ == stored_cells(
                        data@,
                        dim as nat,
                        cell_count as nat,
                    )[j],
            decreases cell_count - k,
        {
            proof {
                assert((k + 1) * m <= cell_count * m) by (nonlinear_arith)
                    requires
                        k < cell_count,
                        m > 0,
                ;
                assert(off + m == 16 + (k + 1) * m) by (nonlinear_arith)
                    requires
                        off == 16 + k * m,
                ;
            }
            let mut words = vec![0u64; wc];
            let mut i: usize = 0;
            while i < wc
                invariant
                    i <= wc,
                    words@.len() == wc,
                    m == wc * 8,
                    off + m <= data@.len(),
                    data@.len() == data.len(),
                    off == 16 + k * m,
                    forall|j: int|
                        0 <= j < i ==> #[trigger] words@[j] == word_at(
                            data@,
                            16 + (k * wc + j) * 8,
                        ),
                decreases wc - i,
            {
                assert(off + (i + 1) * 8 <= off + m) by (nonlinear_arith)
                    requires
                        i < wc,
                        m == wc * 8,
                ;
                assert(i * 8 < (i + 1) * 8);
                assert(off + i * 8 == 16 + (k * wc + i) * 8) by (nonlinear_arith)
                    requires
                        off == 16 + k * m,
                        m == wc * 8,
                ;
                let w = u64_from_le_bytes(&data[off + i * 8..off + (i + 1) * 8]);
                words.set(i, w);
                i = i + 1;
            }
            let hv = Hypervector { dim, words };
            assert(hv@ =~= stored_cells(data@, dim as nat, cell_count as nat)[k as int]);
            cube.push(hv);
            off = off + wc * 8;
            k = k + 1;
        }
        let c = WaveCube { dim, cube };
        assert(c@ =~= stored_cells(data@, dim as nat, cell_count as nat));
        Ok(c)
    }
}

/// Header fields of `data`: `(ndim, side, dim)`.
pub fn parse_cube_header(data: &[u8]) -> (fields: (usize, usize, usize))
    requires
        data@.len() >= 16,
    ensures
        fields.0 == header_fields(data@).1,
        fields.1 == header_fields(data@).0,
        fields.2 == header_fields(data@).2,
{
    let v0 = read_u32_field(data, 0);
    let v1 = read_u32_field(data, 4);
    if v0 == 1 {
        let ndim = read_u32_field(data, 8);
        let dim = read_u32_field(data, 12);
        (ndim, v1, dim)
    } else {
        let dim = read_u32_field(data, 12);
        (3, v0, dim)
    }
}

proof fn lemma_words_le_bytes(w: Seq<u64>)
    ensures
        words_le_bytes(w).len() == 8 * w.len(),
        forall|i: int|
            0 <= i < w.len() ==> #[trigger] words_le_bytes(w).subrange(8 * i, 8 * i + 8)
                == spec_u64_to_le_bytes(w[i]),
    decreases w.len(),
{
    lemma_auto_spec_u64_to_from_le_bytes();
    if w.len() > 0 {
        let p = w.drop_last();
        lemma_words_le_bytes(p);
        let pb = words_le_bytes(p);
        let q = spec_u64_to_le_bytes(w.last());
        assert(words_le_bytes(w) == pb + q);
        assert forall|i: int| 0 <= i < w.len() implies #[trigger] words_le_bytes(w).subrange(
            8 * i,
            8 * i + 8,
        ) == spec_u64_to_le_bytes(w[i]) by {
            if i < p.len() {
                assert(pb.subrange(8 * i, 8 * i + 8) == spec_u64_to_le_bytes(p[i]));
                assert((pb + q).subrange(8 * i, 8 * i + 8) =~= pb.subrange(8 * i, 8 * i + 8));
            } else {
                assert((pb + q).subrange(8 * i, 8 * i + 8) =~= q);
            }
        }
    }
}

/// Cells that all hold `wc` words.
pub open spec fn uniform_cells(cells: Seq<(usize, Seq<u64>)>, wc: nat) -> bool {
    forall|k: int| 0 <= k < cells.len() ==> (#[trigger] cells[k]).1.len() == wc
}

proof fn lemma_cells_bytes(cells: Seq<(usize, Seq<u64>)>, wc: nat)
    requires
        uniform_cells(cells, wc),
    ensures
        cells_bytes(cells).len() == cells.len() * (wc * 8),
        forall|k: int, i: int|
            0 <= k < cells.len() && 0 <= i < wc ==> #[trigger] cells_bytes(cells).subrange(
                (k * wc + i) * 8,
                (k * wc + i) * 8 + 8,
            ) == spec_u64_to_le_bytes(cells[k].1[i]),
    decreases cells.len(),
{
    if cells.len() > 0 {
        let p = cells.drop_last();
        lemma_cells_bytes(p, wc);
        let pb = cells_bytes(p);
        let last = cells.last().1;
        lemma_words_le_bytes(last);
        let q = words_le_bytes(last);
        assert(cells_bytes(cells) == pb + q);
        assert(pb.len() + q.len() == cells.len() * (wc * 8)) by (nonlinear_arith)
            requires
                pb.len() == p.len() * (wc * 8),
                q.len() == 8 * wc,
                p.len() + 1 == cells.len(),
        ;
        assert forall|k: int, i: int| 0 <= k < cells.len() && 0 <= i < wc implies #[trigger] cells_bytes(
            cells,
        ).subrange((k * wc + i) * 8, (k * wc + i) * 8 + 8) == spec_u64_to_le_bytes(cells[k].1[i]) by {
            let a = (k * wc + i) * 8;
            if k < p.len() {
                assert(a + 8 <= pb.len()) by (nonlinear_arith)
                    requires
                        a == (k * wc + i) * 8,
                        k + 1 <= p.len(),
                        i < wc,
                        pb.len() == p.len() * (wc * 8),
                ;
                assert((pb + q).subrange(a, a + 8) =~= pb.subrange(a, a + 8));
                assert(p[k] == cells[k]);
            } else {
                assert(a == pb.len() + 8 * i) by (nonlinear_arith)
                    requires
                        a == (k * wc + i) * 8,
                        k == p.len(),
                        pb.len() == p.len() * (wc * 8),
                ;
                assert((pb + q).subrange(a, a + 8) =~= q.subrange(8 * i, 8 * i + 8));
                assert(cells[k].1 == last);
            }
        }
    }
}

impl<const N: usize, const S: usize> WaveCube<N, S> {
    /// Writing a cube in the binary format and loading the bytes gives back
    /// its dimension and every cell, provided the header fields fit in `u32`,
    /// the dimension is positive and every cell holds the words of that dimension.
    pub proof fn law_bin_roundtrip(c: Self)
        requires
            c.wf(),
            forall|k: int|
                0 <= k < c.cube@.len() ==> (#[trigger] c.cube@[k]).dim == c.dim
                    && c.cube@[k].words@.len() == words_for(c.dim as nat),
            0 < c.dim <= u32::MAX,
            c.dim + 63 <= usize::MAX,
            S <= u32::MAX,
            N <= u32::MAX,
        ensures
            load_defined(header_bytes(S, N, c.dim) + cells_bytes(c@), S as nat, N as nat),
            load_outcome(header_bytes(S, N, c.dim) + cells_bytes(c@), S as nat, N as nat) == Ok::<
                (usize, Seq<(usize, Seq<u64>)>),
                CubeLoadError,
            >((c.dim, c@)),
    {
        lemma_auto_spec_u32_to_from_le_bytes();
        lemma_auto_spec_u64_to_from_le_bytes();
        let h = header_bytes(S, N, c.dim);
        let wc = words_for(c.dim as nat);
        assert(uniform_cells(c@, wc));
        lemma_cells_bytes(c@, wc);
        let cb = cells_bytes(c@);
        let data = h + cb;
        assert(h.len() == 16);
        assert(data.subrange(0, 4) =~= spec_u32_to_le_bytes(1u32));
        assert(data.subrange(4, 8) =~= spec_u32_to_le_bytes(S as u32));
        assert(data.subrange(8, 12) =~= spec_u32_to_le_bytes(N as u32));
        assert(data.subrange(12, 16) =~= spec_u32_to_le_bytes(c.dim as u32));
        assert(header_fields(data) == (S as nat, N as nat, c.dim as nat));
        let total = cells_of(S as nat, N as nat);
        assert(wc > 0);
        assert((data.len() - 16) as nat == total * (wc * 8));
        assert(((data.len() - 16) as nat) / (wc * 8) == total) by {
            lemma_fundamental_div_mod_converse(
                (total * (wc * 8)) as int,
                (wc * 8) as int,
                total as int,
                0,
            );
        }
        let sc = stored_cells(data, c.dim as nat, total);
        assert forall|k: int| 0 <= k < total implies #[trigger] sc[k] == c@[k] by {
            assert forall|i: int| 0 <= i < wc implies #[trigger] sc[k].1[i] == c@[k].1[i] by {
                let a = (k * wc + i) * 8;
                assert(a + 8 <= cb.len()) by (nonlinear_arith)
                    requires
                        a == (k * wc + i) * 8,
                        k + 1 <= total,
                        i < wc,
                        cb.len() == total * (wc * 8),
                ;
                assert(data.subrange(16 + a, 16 + a + 8) =~= cb.subrange(a, a + 8));
                assert(cb.subrange(a, a + 8) == spec_u64_to_le_bytes(c@[k].1[i]));
            }
            assert(sc[k].1 =~= c@[k].1);
            assert(c@[k].0 == c.dim);
        }
        assert(sc =~= c@);
    }
}

} // verus!
