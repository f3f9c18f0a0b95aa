//! Layouts of memory-mapped files: a cube file read cell by cell in place,
//! and a memory file of entries (a vector and three length-prefixed strings
//! each). The files are mapped outside this library; here the bytes are read.

use vstd::prelude::*;
use vstd::arithmetic::power::pow;
use crate::bits::words_for;
use crate::cube_file::{field_at, word_at};
use crate::hypervector::Hypervector;
use crate::wave_cube::{cells_of, horner, WaveCube};
use vstd::bytes::{u32_from_le_bytes, u64_from_le_bytes};

verus! {

/// How a mapped cube file is laid out.
pub struct MappedCubeLayout {
    pub side_len: usize,
    pub ndim: usize,
    pub dim: usize,
    pub word_count: usize,
}

/// Why a mapped cube file was refused.
pub enum MappedCubeError {
    /// Fewer than 16 bytes.
    TooSmall,
    /// The number of whole cells differs from `side_len ^ ndim`.
    CellCount { cells: usize, expected: usize },
}

/// `(side_len, ndim, dim)` as the mapped reader takes them from the header:
/// after a leading `1`, the second field serves as both side length and
/// number of axes, and the third as the dimension; otherwise the first field
/// is the side length of a three-axis cube and the fourth the dimension.
pub open spec fn mapped_header(d: Seq<u8>) -> (nat, nat, nat) {
    if field_at(d, 0) == 1 {
        (field_at(d, 4), field_at(d, 4), field_at(d, 8))
    } else {
        (field_at(d, 0), 3, field_at(d, 12))
    }
}

/// Opening `d` does not divide by zero or overflow: the dimension is
/// positive and `side_len ^ ndim` fits.
pub open spec fn mapped_cube_defined(d: Seq<u8>) -> bool {
    d.len() >= 16 ==> {
        let (side, ndim, dim) = mapped_header(d);
        &&& dim > 0
        &&& dim + 63 <= usize::MAX
        &&& pow(side as int, ndim) <= usize::MAX
    }
}

/// Whole cells after the header.
pub open spec fn mapped_cell_count(d: Seq<u8>) -> nat {
    let dim = mapped_header(d).2;
    ((d.len() - 16) as nat) / (words_for(dim) * 8)
}

fn read_field(d: &[u8], off: usize) -> (v: usize)
    requires
        off + 4 <= d@.len(),
    ensures
        v == field_at(d@, off as int),
{
    assert(d@.len() == d.len());
    u32_from_le_bytes(&d[off..off + 4]) as usize
}

fn power(base: usize, e: usize) -> (r: usize)
    requires
        pow(base as int, e as nat) <= usize::MAX,
    ensures
        r == pow(base as int, e as nat),
{
    let mut r: usize = 1;
    let mut k: usize = 0;
    proof {
        vstd::arithmetic::power::lemma_pow0(base as int);
    }
    while k < e
        invariant
            k <= e,
            r == pow(base as int, k as nat),
            pow(base as int, e as nat) <= usize::MAX,
        decreases e - k,
    {
        proof {
            vstd::arithmetic::power::lemma_pow_adds(base as int, k as nat, 1);
            vstd::arithmetic::power::lemma_pow1(base as int);
            if base > 0 {
                vstd::arithmetic::power::lemma_pow_increases(base as nat, (k + 1) as nat, e as nat);
            } else {
                assert(pow(base as int, (k + 1) as nat) == r * base);
                assert(r * base == 0) by (nonlinear_arith)
                    requires
                        base == 0,
                ;
            }
        }
        r = r * base;
        k = k + 1;
    }
    r
}

/// The header fields `(side_len, ndim, dim)` as the mapped reader takes them.
pub fn mapped_header_fields(data: &[u8]) -> (r: (usize, usize, usize))
    requires
        data@.len() >= 16,
    ensures
        (r.0 as nat, r.1 as nat, r.2 as nat) == mapped_header(data@),
{
    let v0 = read_field(data, 0);
    let v1 = read_field(data, 4);
    if v0 == 1 {
        (v1, v1, read_field(data, 8))
    } else {
        (v0, 3usize, read_field(data, 12))
    }
}

/// Reads the layout of a mapped cube file: refused when shorter than the
/// header or when its whole cells are not `side_len ^ ndim`.
pub fn mapped_cube_layout(data: &[u8]) -> (r: Result<MappedCubeLayout, MappedCubeError>)
    requires
        mapped_cube_defined(data@),
    ensures
        data@.len() < 16 ==> r is Err && r->Err_0 is TooSmall,
        data@.len() >= 16 ==> match r {
            Ok(l) => {
                &&& (l.side_len as nat, l.ndim as nat, l.dim as nat) == mapped_header(data@)
                &&& l.word_count == words_for(l.dim as nat)
                &&& mapped_cell_count(data@) == pow(l.side_len as int, l.ndim as nat)
            },
            Err(MappedCubeError::CellCount { cells, expected }) => {
                &&& cells == mapped_cell_count(data@)
                &&& expected == pow(mapped_header(data@).0 as int, mapped_header(data@).1)
                &&& cells != expected
            },
            Err(MappedCubeError::TooSmall) => false,
        },
{
    if data.len() < 16 {
        return Err(MappedCubeError::TooSmall);
    }
    let (side_len, ndim, dim) = mapped_header_fields(data);
    let wc = (dim + 63) / 64;
    let data_len = data.len() - 16;
    let cell_count = data_len / (wc * 8);
    let expected = power(side_len, ndim);
    if cell_count != expected {
        return Err(MappedCubeError::CellCount { cells: cell_count, expected });
    }
    Ok(MappedCubeLayout { side_len, ndim, dim, word_count: wc })
}

/// Byte offset of the cell at `coords`: after the header, cells in
/// row-major order, each `word_count` words long.
pub open spec fn mapped_cell_offset(l: MappedCubeLayout, coords: Seq<usize>) -> int {
    16 + horner(coords, l.side_len as nat, coords.len()) * l.word_count * 8
}

/// The cell whose words start at byte `off`.
pub open spec fn mapped_cell(d: Seq<u8>, l: MappedCubeLayout, off: int) -> (usize, Seq<u64>) {
    (l.dim, Seq::new(l.word_count as nat, |i: int| word_at(d, off + i * 8)))
}

fn read_cell(data: &[u8], off: usize, dim: usize, wc: usize) -> (hv: Hypervector)
    requires
        off + wc * 8 <= data@.len(),
    ensures
        hv.dim == dim,
        hv.words@ == Seq::new(wc as nat, |i: int| word_at(data@, off + i * 8)),
{
    let mut words = vec![0u64; wc];
    let mut i: usize = 0;
    while i < wc
        invariant
            i <= wc,
            words@.len() == wc,
            off + wc * 8 <= data@.len(),
            data@.len() == data.len(),
            forall|j: int| 0 <= j < i ==> #[trigger] words@[j] == word_at(data@, off + j * 8),
        decreases wc - i,
    {
        assert(off + (i + 1) * 8 <= off + wc * 8) by (nonlinear_arith)
            requires
                i < wc,
        ;
        assert(i * 8 < (i + 1) * 8);
        let w = u64_from_le_bytes(&data[off + i * 8..off + (i + 1) * 8]);
        words.set(i, w);
        i = i + 1;
    }
    assert(words@ =~= Seq::new(wc as nat, |i: int| word_at(data@, off + i * 8)));
    Hypervector { dim, words }
}

impl MappedCubeLayout {
    /// Byte offset of the cell at `coords`.
    pub fn cell_offset(&self, coords: &[usize]) -> (off: usize)
        requires
            horner(coords@, self.side_len as nat, coords@.len()) <= usize::MAX,
            mapped_cell_offset(*self, coords@) <= usize::MAX,
        ensures
            off == mapped_cell_offset(*self, coords@),
    {
        let mut idx: usize = 0;
        let mut k: usize = 0;
        while k < coords.len()
            invariant
                k <= coords@.len(),
                idx == horner(coords@, self.side_len as nat, k as nat),
                horner(coords@, self.side_len as nat, coords@.len()) <= usize::MAX,
            decreases coords@.len() - k,
        {
            proof {
                if self.side_len > 0 {
                    lemma_horner_prefix_le(coords@, self.side_len as nat, (k + 1) as nat, coords@.len());
                } else {
                    assert(idx * self.side_len == 0) by (nonlinear_arith)
                        requires
                            self.side_len == 0,
                    ;
                }
            }
            idx = idx * self.side_len + coords[k];
            k = k + 1;
        }
        proof {
            assert(idx * self.word_count * 8 <= usize::MAX) by (nonlinear_arith)
                requires
                    16 + idx * self.word_count * 8 <= usize::MAX,
            ;
        }
        16 + idx * self.word_count * 8
    }

    /// The cell at `coords`, read in place.
    pub fn cell_at(&self, data: &[u8], coords: &[usize]) -> (hv: Hypervector)
        requires
            horner(coords@, self.side_len as nat, coords@.len()) <= usize::MAX,
            mapped_cell_offset(*self, coords@) + self.word_count * 8 <= data@.len(),
        ensures
            hv@ == mapped_cell(data@, *self, mapped_cell_offset(*self, coords@)),
    {
        let n = data.len();
        assert(n == data@.len());
        let off = self.cell_offset(coords);
        let hv = read_cell(data, off, self.dim, self.word_count);
        assert(hv@ =~= mapped_cell(data@, *self, off as int));
        hv
    }

    /// The cell at `(x, y, z)`.
    pub fn cell(&self, data: &[u8], x: usize, y: usize, z: usize) -> (hv: Hypervector)
        requires
            horner(seq![x, y, z], self.side_len as nat, 3) <= usize::MAX,
            mapped_cell_offset(*self, seq![x, y, z]) + self.word_count * 8 <= data@.len(),
        ensures
            hv@ == mapped_cell(data@, *self, mapped_cell_offset(*self, seq![x, y, z])),
    {
        let coords: [usize; 3] = [x, y, z];
        assert(coords@ =~= seq![x, y, z]);
        self.cell_at(data, coords.as_slice())
    }
}

/// Row-major indices never shrink as coordinates are added, in a grid of side at least one.
pub proof fn lemma_horner_prefix_le(c: Seq<usize>, s: nat, k: nat, n: nat)
    requires
        s >= 1,
        k <= n,
    ensures
        horner(c, s, k) <= horner(c, s, n),
    decreases n - k,
{
    if k < n {
        lemma_horner_prefix_le(c, s, k, (n - 1) as nat);
        assert(horner(c, s, (n - 1) as nat) <= horner(c, s, (n - 1) as nat) * s) by (nonlinear_arith)
            requires
                s >= 1,
        ;
    }
}

/// `l` is the layout `mapped_cube_layout` accepts for `d`.
pub open spec fn layout_of(d: Seq<u8>, l: MappedCubeLayout) -> bool {
    &&& d.len() >= 16
    &&& (l.side_len as nat, l.ndim as nat, l.dim as nat) == mapped_header(d)
    &&& l.word_count == words_for(l.dim as nat)
    &&& l.word_count > 0
    &&& mapped_cell_count(d) == pow(l.side_len as int, l.ndim as nat)
}

proof fn lemma_pow_cells(s: nat, k: nat)
    ensures
        pow(s as int, k) == cells_of(s, k),
    decreases k,
{
    vstd::arithmetic::power::lemma_pow0(s as int);
    if k > 0 {
        lemma_pow_cells(s, (k - 1) as nat);
        vstd::arithmetic::power::lemma_pow_adds(s as int, (k - 1) as nat, 1);
        vstd::arithmetic::power::lemma_pow1(s as int);
        assert(pow(s as int, (k - 1) as nat) * s == s * pow(s as int, (k - 1) as nat)) by (nonlinear_arith);
    }
}

impl MappedCubeLayout {
    /// The whole cube, read in place: cell `i` is the `i`-th run of
    /// `word_count` words after the header.
    pub fn to_wave_cube<const N: usize, const S: usize>(&self, data: &[u8]) -> (c: WaveCube<N, S>)
        requires
            layout_of(data@, *self),
            self.ndim == N,
            self.side_len == S,
        ensures
            c.dim == self.dim,
            c.wf(),
            forall|i: int| 0 <= i < c@.len() ==> #[trigger] c@[i] == mapped_cell(data@, *self, 16 + i * self.word_count * 8),
    {
        let total = mapped_total(self, data);
        proof {
            lemma_pow_cells(S as nat, N as nat);
        }
        let wc = self.word_count;
        let n = data.len();
        let mut cube: Vec<Hypervector> = Vec::with_capacity(total);
        let mut k: usize = 0;
        while k < total
            invariant
                k <= total,
                total * wc * 8 + 16 <= n,
                n == data@.len(),
                wc == self.word_count,
                wc > 0,
                cube@.len() == k,
                forall|j: int| 0 <= j < k ==> (#[trigger] cube@[j])@ == mapped_cell(data@, *self, 16 + j * wc * 8),
            decreases total - k,
        {
            proof {
                assert((k + 1) * wc * 8 <= total * wc * 8) by (nonlinear_arith)
                    requires
                        k < total,
                        wc > 0,
                ;
                assert(16 + k * wc * 8 + wc * 8 == 16 + (k + 1) * wc * 8) by (nonlinear_arith);
            }
            let off = 16 + k * wc * 8;
            let hv = read_cell(data, off, self.dim, wc);
            assert(hv@ =~= mapped_cell(data@, *self, off as int));
            cube.push(hv);
            k = k + 1;
        }
        let c = WaveCube::<N, S> { dim: self.dim, cube };
        c
    }
}

fn mapped_total(l: &MappedCubeLayout, data: &[u8]) -> (total: usize)
    requires
        layout_of(data@, *l),
    ensures
        total == pow(l.side_len as int, l.ndim as nat),
        total * l.word_count * 8 + 16 <= data@.len(),
{
    let n = data.len();
    let m = l.word_count * 8;
    let total = (n - 16) / m;
    proof {
        let dl = (n - 16) as int;
        let mi = m as int;
        vstd::arithmetic::div_mod::lemma_fundamental_div_mod(dl, mi);
        assert(total * mi <= dl) by (nonlinear_arith)
            requires
                dl == mi * (dl / mi) + dl % mi,
                dl % mi >= 0,
                total == dl / mi,
        ;
        assert(total * l.word_count * 8 == total * m) by (nonlinear_arith)
            requires
                m == l.word_count * 8,
        ;
    }
    total
}

/// How a mapped memory file is laid out: the first entry's dimension, the
/// number of entries, and where each entry starts.
pub struct MemoryLayout {
    pub dim: usize,
    pub num_entries: usize,
    pub word_count: usize,
    pub offsets: Vec<usize>,
}

/// Why a mapped memory file was refused.
#[derive(Debug, Clone, Copy, PartialEq, Eq, Structural)]
pub enum MemoryFormatError {
    TooSmall,
    TruncatedDim,
    TruncatedString,
}

impl MemoryFormatError {
    /// The error as text.
    pub fn message(&self) -> (s: &'static str)
        ensures
            s@ == (match *self {
                MemoryFormatError::TooSmall => "File too small for header"@,
                MemoryFormatError::TruncatedDim => "Truncated memory file: dim"@,
                MemoryFormatError::TruncatedString => "Truncated memory file: string len"@,
            }),
    {
        match self {
            MemoryFormatError::TooSmall => "File too small for header",
            MemoryFormatError::TruncatedDim => "Truncated memory file: dim",
            MemoryFormatError::TruncatedString => "Truncated memory file: string len",
        }
    }
}

/// Where the walk over one entry's three length-prefixed strings, from `pos`,
/// ends; `None` when a length field does not fit.
pub open spec fn strings_end(d: Seq<u8>, pos: int, left: nat) -> Option<int>
    decreases left,
{
    if left == 0 {
        Some(pos)
    } else if pos + 4 > d.len() {
        None
    } else {
        strings_end(d, pos + 4 + field_at(d, pos), (left - 1) as nat)
    }
}

/// The start offsets of `remaining` entries from `pos`, or the first field
/// that does not fit.
pub open spec fn entry_offsets(d: Seq<u8>, pos: int, remaining: nat) -> Result<Seq<int>, MemoryFormatError>
    decreases remaining,
{
    if remaining == 0 {
        Ok(Seq::empty())
    } else if pos + 4 > d.len() {
        Err(MemoryFormatError::TruncatedDim)
    } else {
        let vec_end = pos + 4 + words_for(field_at(d, pos)) * 8;
        match strings_end(d, vec_end, 3) {
            None => Err(MemoryFormatError::TruncatedString),
            Some(next) => match entry_offsets(d, next, (remaining - 1) as nat) {
                Ok(rest) => Ok(seq![pos] + rest),
                Err(e) => Err(e),
            },
        }
    }
}

/// Reading the layout cannot overflow, and the first entry's dimension is
/// there to read.
pub open spec fn memory_defined(d: Seq<u8>) -> bool {
    &&& d.len() + 0x10_0000_0000 <= usize::MAX
    &&& d.len() >= 4 && field_at(d, 0) == 0 ==> d.len() >= 8
}

fn walk_strings(data: &[u8], pos: usize) -> (r: Option<usize>)
    requires
        pos <= data@.len() + 0x2_0000_0000,
        data@.len() + 0x10_0000_0000 <= usize::MAX,
    ensures
        match r {
            Some(p) => strings_end(data@, pos as int, 3) == Some(p as int) && p <= data@.len() + 0x1_0000_0004,
            None => strings_end(data@, pos as int, 3) is None,
        },
{
    let n = data.len();
    let mut p = pos;
    let mut left: usize = 3;
    while left > 0
        invariant
            n == data@.len(),
            n + 0x10_0000_0000 <= usize::MAX,
            left <= 3,
            left == 3 ==> p == pos,
            left < 3 ==> p <= n + 0x1_0000_0004,
            p <= n + 0x2_0000_0000,
            strings_end(data@, pos as int, 3) == strings_end(data@, p as int, left as nat),
        decreases left,
    {
        if p + 4 > n {
            return None;
        }
        let len = read_field(data, p);
        p = p + 4 + len;
        left = left - 1;
    }
    Some(p)
}

/// `l` describes `d` with entry starts `offs`.
pub open spec fn describes(d: Seq<u8>, l: MemoryLayout, offs: Seq<int>) -> bool {
    &&& l.num_entries == field_at(d, 0)
    &&& l.dim == field_at(d, 4)
    &&& l.word_count == words_for(l.dim as nat)
    &&& l.offsets@.len() == offs.len()
    &&& forall|i: int| 0 <= i < offs.len() ==> #[trigger] l.offsets@[i] == offs[i]
}

/// `hv` is the vector of the entry starting at `pos`.
pub open spec fn stored_entry(d: Seq<u8>, pos: int, hv: Hypervector) -> bool {
    &&& hv.dim == field_at(d, pos)
    &&& hv.words@ == Seq::new(words_for(hv.dim as nat), |i: int| word_at(d, pos + 4 + i * 8))
}

/// Reads the layout of a mapped memory file: the entry count, each entry's
/// start (its vector's dimension, its words, then three strings, each a
/// length and bytes), and the dimension at bytes 4..8.
pub fn memory_layout(data: &[u8]) -> (r: Result<MemoryLayout, MemoryFormatError>)
    requires
        memory_defined(data@),
    ensures
        data@.len() < 4 ==> r == Err::<MemoryLayout, MemoryFormatError>(MemoryFormatError::TooSmall),
        data@.len() >= 4 ==> match entry_offsets(data@, 4, field_at(data@, 0)) {
            Err(e) => r == Err::<MemoryLayout, MemoryFormatError>(e),
            Ok(offs) => (r matches Ok(l) && describes(data@, l, offs)),
        },
{
    let n = data.len();
    if n < 4 {
        return Err(MemoryFormatError::TooSmall);
    }
    let num_entries = read_field(data, 0);
    let mut offsets: Vec<usize> = Vec::new();
    let mut pos: usize = 4;
    let mut k: usize = 0;
    let ghost all = entry_offsets(data@, 4, num_entries as nat);
    while k < num_entries
        invariant
            n == data@.len(),
            n >= 4,
            memory_defined(data@),
            k <= num_entries,
            num_entries == field_at(data@, 0),
            pos <= n + 0x1_0000_0004,
            all == entry_offsets(data@, 4, num_entries as nat),
            k > 0 ==> n >= 8,
            all == match entry_offsets(data@, pos as int, (num_entries - k) as nat) {
                Ok(rest) => Ok(offsets@.map_values(|o: usize| o as int) + rest),
                Err(e) => Err(e),
            },
        decreases num_entries - k,
    {
        let ghost before = offsets@.map_values(|o: usize| o as int);
        offsets.push(pos);
        if pos + 4 > n {
            return Err(MemoryFormatError::TruncatedDim);
        }
        let dim = read_field(data, pos);
        let wc = (dim + 63) / 64;
        let vec_end = pos + 4 + wc * 8;
        match walk_strings(data, vec_end) {
            None => {
                return Err(MemoryFormatError::TruncatedString);
            },
            Some(next) => {
                proof {
                    assert(offsets@.map_values(|o: usize| o as int) =~= before + seq![pos as int]);
                    match entry_offsets(data@, next as int, (num_entries - k - 1) as nat) {
                        Ok(rest) => {
                            assert(before + (seq![pos as int] + rest) =~= (before + seq![pos as int]) + rest);
                        },
                        Err(e) => {},
                    }
                }
                pos = next;
            },
        }
        k = k + 1;
    }
    assert(entry_offsets(data@, pos as int, 0) == Ok::<Seq<int>, MemoryFormatError>(Seq::empty()));
    assert(offsets@.map_values(|o: usize| o as int) + Seq::<int>::empty() =~= offsets@.map_values(|o: usize| o as int));
    let dim = read_field(data, 4);
    Ok(MemoryLayout { dim, num_entries, word_count: (dim + 63) / 64, offsets })
}

impl MemoryLayout {
    /// The vector of entry `idx`: its dimension and words as stored; `None`
    /// past the last entry.
    pub fn entry_vector(&self, data: &[u8], idx: usize) -> (r: Option<Hypervector>)
        requires
            self.offsets@.len() == self.num_entries,
            idx < self.num_entries ==> {
                let pos = self.offsets@[idx as int] as int;
                &&& pos + 4 <= data@.len()
                &&& field_at(data@, pos) + 63 <= usize::MAX
                &&& pos + 4 + words_for(field_at(data@, pos)) * 8 <= data@.len()
            },
        ensures
            idx >= self.num_entries ==> r is None,
            idx < self.num_entries ==> (r matches Some(hv) && stored_entry(data@, self.offsets@[idx as int] as int, hv)),
    {
        if idx >= self.num_entries {
            return None;
        }
        let pos = self.offsets[idx];
        let n = data.len();
        assert(n == data@.len());
        let dim = read_field(data, pos);
        let wc = (dim + 63) / 64;
        Some(read_cell(data, pos + 4, dim, wc))
    }
}

} // verus!
