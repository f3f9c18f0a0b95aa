//! The GGUF container the model is exported in: a header (magic, version,
//! tensor count, entry count), then key/value entries, zero-padded to a
//! 32-byte boundary. Values are strings (type 8: length and bytes), byte
//! arrays (type 9: element type 0, length, bytes) and `u64` (type 10).

use vstd::prelude::*;
use vstd::string::StringSliceAdditionalSpecFns;
use vstd::utf8::{encode_utf8, is_ascii_chars_encode_utf8};
use crate::cube_file::push_all;
use vstd::bytes::{
    lemma_auto_spec_u32_to_from_le_bytes, lemma_auto_spec_u64_to_from_le_bytes, spec_u32_from_le_bytes,
    spec_u32_to_le_bytes, spec_u64_from_le_bytes, spec_u64_to_le_bytes, u32_from_le_bytes, u32_to_le_bytes,
    u64_from_le_bytes, u64_to_le_bytes,
};

verus! {

pub const GGUF_MAGIC: u32 = 0x46475547;

pub const GGUF_VERSION: u32 = 3;

pub const GGUF_ALIGN: usize = 32;

/// `n` rounded up to a multiple of the power of two `align`.
pub fn pad_to(n: usize, align: usize) -> (r: usize)
    requires
        1 <= align,
        n + align - 1 <= usize::MAX,
    ensures
        r == ((n + align - 1) as usize & !((align - 1) as usize)),
{
    (n + (align - 1)) & !(align - 1)
}

/// Rounding up to 32 gives the least multiple of 32 not below `n`.
pub proof fn law_pad_to_aligns(n: usize, r: usize)
    requires
        n + 31 <= usize::MAX,
        r == ((n + 31) as usize & !(31usize)),
    ensures
        r % 32 == 0,
        n <= r < n + 32,
{
    let m: usize = (n + 31) as usize;
    assert(m >= n);
    assert(r % 32 == 0 && n <= r && r < n + 32) by (bit_vector)
        requires
            m >= n,
            m == (n + 31) as usize,
            r == (m & !(31usize)),
    ;
}

/// The little-endian `u32` at byte `off`.
pub open spec fn u32_le(d: Seq<u8>, off: int) -> u32 {
    spec_u32_from_le_bytes(d.subrange(off, off + 4))
}

/// The little-endian `u64` at byte `off`.
pub open spec fn u64_le(d: Seq<u8>, off: int) -> u64 {
    spec_u64_from_le_bytes(d.subrange(off, off + 8))
}

/// The bytes of `fuga.generation`.
pub open spec fn generation_key() -> Seq<u8> {
    seq![102u8, 117u8, 103u8, 97u8, 46u8, 103u8, 101u8, 110u8, 101u8, 114u8, 97u8, 116u8, 105u8, 111u8, 110u8]
}

/// What a search for the generation counter finds.
#[derive(Debug, Clone, Copy, PartialEq, Eq, Structural)]
pub enum GenerationScan {
    /// The counter's value.
    Found(u64),
    /// No counter entry, or the entries end early.
    Absent,
    /// The counter entry's value runs past the end of the data.
    Truncated,
}

/// Where the entry walk resumes after skipping a value of type `vtype` that starts at `off`.
pub open spec fn skip_value(d: Seq<u8>, off: int, vtype: u32) -> int {
    if vtype == 8 {
        if off + 8 <= d.len() { off + 8 + u64_le(d, off) } else { off }
    } else if vtype == 9 {
        if off + 12 <= d.len() {
            off + 12 + if u32_le(d, off) == 0 { u64_le(d, off + 4) as int } else { 0 }
        } else {
            off + 12
        }
    } else if vtype == 10 || vtype == 11 || vtype == 12 {
        off + 8
    } else {
        off + 4
    }
}

/// Walks `remaining` entries from byte `off`, looking for a `u64` entry keyed
/// `fuga.generation`.
pub open spec fn scan_entries(d: Seq<u8>, off: int, remaining: nat) -> GenerationScan
    decreases remaining,
{
    if remaining == 0 || off + 8 > d.len() {
        GenerationScan::Absent
    } else {
        let klen = u64_le(d, off) as int;
        let key_at = off + 8;
        if key_at + klen > d.len() {
            GenerationScan::Absent
        } else {
            let type_at = key_at + klen;
            if type_at + 4 > d.len() {
                GenerationScan::Absent
            } else {
                let vtype = u32_le(d, type_at);
                let value_at = type_at + 4;
                if d.subrange(key_at, key_at + klen) == generation_key() && vtype == 10 {
                    if value_at + 8 > d.len() {
                        GenerationScan::Truncated
                    } else {
                        GenerationScan::Found(u64_le(d, value_at))
                    }
                } else {
                    scan_entries(d, skip_value(d, value_at, vtype), (remaining - 1) as nat)
                }
            }
        }
    }
}

/// The generation counter of a GGUF file's bytes.
pub open spec fn scan_generation(d: Seq<u8>) -> GenerationScan {
    if d.len() < 24 || u32_le(d, 0) != GGUF_MAGIC {
        GenerationScan::Absent
    } else {
        scan_entries(d, 24, u64_le(d, 16) as nat)
    }
}

fn read_u32(d: &[u8], off: usize) -> (v: u32)
    requires
        off + 4 <= d@.len(),
    ensures
        v == u32_le(d@, off as int),
{
    assert(d@.len() == d.len());
    u32_from_le_bytes(&d[off..off + 4])
}

fn read_u64(d: &[u8], off: usize) -> (v: u64)
    requires
        off + 8 <= d@.len(),
    ensures
        v == u64_le(d@, off as int),
{
    assert(d@.len() == d.len());
    u64_from_le_bytes(&d[off..off + 8])
}

fn is_generation_key(d: &[u8], at: usize, len: usize) -> (r: bool)
    requires
        at + len <= d@.len(),
    ensures
        r == (d@.subrange(at as int, at + len) == generation_key()),
{
    let key: [u8; 15] = [102u8, 117u8, 103u8, 97u8, 46u8, 103u8, 101u8, 110u8, 101u8, 114u8, 97u8, 116u8, 105u8, 111u8, 110u8];
    assert(key@ =~= generation_key());
    if len != 15 {
        return false;
    }
    let dl = d.len();
    let mut k: usize = 0;
    while k < 15
        invariant
            k <= 15,
            len == 15,
            dl == d@.len(),
            at + len <= d@.len(),
            key@ == generation_key(),
            forall|j: int| 0 <= j < k ==> d@[at + j] == key@[j],
        decreases 15 - k,
    {
        if d[at + k] != key[k] {
            assert(d@.subrange(at as int, at + len)[k as int] != generation_key()[k as int]);
            return false;
        }
        k = k + 1;
    }
    assert(d@.subrange(at as int, at + len) =~= generation_key());
    true
}

/// Searches GGUF bytes for the generation counter: the value of the first
/// entry keyed `fuga.generation` with type `u64`, found by walking the
/// entries the header announces. `Absent` when the data is too short, the
/// magic is wrong, or no such entry comes before the entries run out;
/// `Truncated` when that entry's value runs past the end.
pub fn scan_generation_bytes(data: &[u8]) -> (r: GenerationScan)
    requires
        data@.len() + 32 <= usize::MAX,
    ensures
        r == scan_generation(data@),
{
    let n = data.len();
    if n < 24 {
        return GenerationScan::Absent;
    }
    if read_u32(data, 0) != GGUF_MAGIC {
        return GenerationScan::Absent;
    }
    let count = read_u64(data, 16);
    let mut remaining: u64 = count;
    let mut off: usize = 24;
    let ghost mut soff: int = 24;
    while remaining > 0
        invariant
            n == data@.len(),
            n + 32 <= usize::MAX,
            n >= 24,
            scan_generation(data@) == scan_entries(data@, soff, remaining as nat),
            soff >= 24,
            soff <= n ==> off == soff,
            soff > n ==> off == n + 1,
        decreases remaining,
    {
        if off + 8 > n {
            return GenerationScan::Absent;
        }
        let klen = read_u64(data, off);
        let key_at = off + 8;
        let avail = (n - key_at) as u64;
        if klen > avail {
            return GenerationScan::Absent;
        }
        let klen = klen as usize;
        let type_at = key_at + klen;
        if type_at + 4 > n {
            return GenerationScan::Absent;
        }
        let vtype = read_u32(data, type_at);
        let value_at = type_at + 4;
        if is_generation_key(data, key_at, klen) && vtype == 10 {
            if value_at + 8 > n {
                return GenerationScan::Truncated;
            }
            return GenerationScan::Found(read_u64(data, value_at));
        }
        let ghost next = skip_value(data@, value_at as int, vtype);
        let next_off: usize = if vtype == 8 {
            if value_at + 8 <= n {
                let slen = read_u64(data, value_at + 8 - 8);
                let room = (n - (value_at + 8)) as u64;
                if slen > room { n + 1 } else { value_at + 8 + slen as usize }
            } else {
                value_at
            }
        } else if vtype == 9 {
            if value_at + 12 <= n {
                let elem_type = read_u32(data, value_at);
                let count = read_u64(data, value_at + 4);
                let extra: u64 = if elem_type == 0 { count } else { 0 };
                let room = (n - (value_at + 12)) as u64;
                if extra > room { n + 1 } else { value_at + 12 + extra as usize }
            } else {
                if value_at + 12 > n { n + 1 } else { value_at + 12 }
            }
        } else if vtype == 10 || vtype == 11 || vtype == 12 {
            if value_at + 8 > n { n + 1 } else { value_at + 8 }
        } else {
            if value_at + 4 > n { n + 1 } else { value_at + 4 }
        };
        proof {
            soff = next;
        }
        off = next_off;
        remaining = remaining - 1;
    }
    GenerationScan::Absent
}

/// Little-endian bytes of a `u64`.
pub open spec fn le64(x: u64) -> Seq<u8> {
    spec_u64_to_le_bytes(x)
}

/// Little-endian bytes of a `u32`.
pub open spec fn le32(x: u32) -> Seq<u8> {
    spec_u32_to_le_bytes(x)
}

/// One entry: key length, key, value type, value.
pub open spec fn entry_bytes(key: Seq<u8>, value: Seq<u8>, vtype: u32) -> Seq<u8> {
    le64(key.len() as u64) + key + le32(vtype) + value
}

/// The entries one after another.
pub open spec fn entries_bytes(kv: Seq<(Vec<u8>, Vec<u8>, u32)>) -> Seq<u8>
    decreases kv.len(),
{
    if kv.len() == 0 {
        Seq::empty()
    } else {
        entries_bytes(kv.drop_last()) + entry_bytes(kv.last().0@, kv.last().1@, kv.last().2)
    }
}

/// The header: magic, version, no tensors, `count` entries.
pub open spec fn gguf_header(count: u64) -> Seq<u8> {
    le32(GGUF_MAGIC) + le32(GGUF_VERSION) + le64(0) + le64(count)
}

/// `b` zero-padded to the next multiple of 32 bytes.
pub open spec fn padded32(b: Seq<u8>) -> Seq<u8> {
    b + Seq::new((((b.len() + 31) / 32) * 32 - b.len()) as nat, |i: int| 0u8)
}

/// A whole file holding the entries `kv`.
pub open spec fn gguf_bytes(kv: Seq<(Vec<u8>, Vec<u8>, u32)>) -> Seq<u8> {
    padded32(gguf_header(kv.len() as u64) + entries_bytes(kv))
}

/// A string value: its byte length, then its bytes.
pub open spec fn string_value_bytes(s: Seq<u8>) -> Seq<u8> {
    le64(s.len() as u64) + s
}

/// A byte-array value: element type 0 (bytes), length, bytes.
pub open spec fn blob_value_bytes(b: Seq<u8>) -> Seq<u8> {
    le32(0) + le64(b.len() as u64) + b
}

/// The bytes of a string slice as a vector.
pub fn str_bytes(s: &str) -> (v: Vec<u8>)
    ensures
        v@ == s.spec_bytes(),
{
    let b = s.as_bytes();
    let mut v: Vec<u8> = Vec::new();
    let mut k: usize = 0;
    while k < b.len()
        invariant
            k <= b@.len(),
            v@ == b@.take(k as int),
        decreases b@.len() - k,
    {
        v.push(b[k]);
        assert(b@.take(k as int + 1) =~= b@.take(k as int).push(b@[k as int]));
        k = k + 1;
    }
    assert(b@.take(b@.len() as int) =~= b@);
    v
}

/// A string value for `s`.
pub fn string_value(s: &str) -> (v: Vec<u8>)
    ensures
        v@ == string_value_bytes(s.spec_bytes()),
{
    let bytes = str_bytes(s);
    let mut v = u64_to_le_bytes(bytes.len() as u64);
    push_all(&mut v, &bytes);
    v
}

/// A byte-array value holding `data`.
pub fn blob_value(data: &Vec<u8>) -> (v: Vec<u8>)
    ensures
        v@ == blob_value_bytes(data@),
{
    let mut v = u32_to_le_bytes(0u32);
    push_all(&mut v, &u64_to_le_bytes(data.len() as u64));
    push_all(&mut v, data);
    v
}

/// The GGUF bytes holding the entries `kv`, padded to 32 bytes.
pub fn build_gguf(kv: &Vec<(Vec<u8>, Vec<u8>, u32)>) -> (out: Vec<u8>)
    requires
        (gguf_header(kv@.len() as u64) + entries_bytes(kv@)).len() + 31 <= usize::MAX,
    ensures
        out@ == gguf_bytes(kv@),
{
    let mut out = u32_to_le_bytes(GGUF_MAGIC);
    push_all(&mut out, &u32_to_le_bytes(GGUF_VERSION));
    push_all(&mut out, &u64_to_le_bytes(0u64));
    push_all(&mut out, &u64_to_le_bytes(kv.len() as u64));
    let ghost head = gguf_header(kv@.len() as u64);
    assert(out@ =~= head);
    let mut i: usize = 0;
    while i < kv.len()
        invariant
            i <= kv@.len(),
            head == gguf_header(kv@.len() as u64),
            out@ == head + entries_bytes(kv@.take(i as int)),
            (head + entries_bytes(kv@)).len() + 31 <= usize::MAX,
        decreases kv@.len() - i,
    {
        let ghost pre = kv@.take(i as int);
        assert(kv@.take(i + 1).drop_last() =~= pre);
        let (key, value, vtype) = &kv[i];
        push_all(&mut out, &u64_to_le_bytes(key.len() as u64));
        push_all(&mut out, key);
        push_all(&mut out, &u32_to_le_bytes(*vtype));
        push_all(&mut out, value);
        assert(out@ =~= head + entries_bytes(kv@.take(i + 1)));
        i = i + 1;
    }
    assert(kv@.take(kv@.len() as int) =~= kv@);
    let len = out.len();
    let target = pad_to(len, GGUF_ALIGN);
    proof {
        law_pad_to_aligns(len, target);
        assert(target == ((len + 31) / 32) * 32) by (nonlinear_arith)
            requires
                target % 32 == 0,
                len <= target < len + 32,
        ;
    }
    let ghost body = out@;
    while out.len() < target
        invariant
            len == body.len(),
            len <= out@.len() <= target,
            out@ == body + Seq::new((out@.len() - len) as nat, |i: int| 0u8),
        decreases target - out@.len(),
    {
        out.push(0u8);
        assert(out@ =~= body + Seq::new((out@.len() - len) as nat, |i: int| 0u8));
    }
    out
}

/// Where the stored files start among the entries of an export.
pub open spec fn blobs_at(eval: Option<&str>) -> int {
    if eval is Some { 5 } else { 4 }
}

/// Entry `e` has key `key`, value `value` and type `vtype`.
pub open spec fn entry_is(e: (Vec<u8>, Vec<u8>, u32), key: Seq<u8>, value: Seq<u8>, vtype: u32) -> bool {
    e.0@ == key && e.1@ == value && e.2 == vtype
}

proof fn lemma_literal_bytes()
    ensures
        "fuga.generation".spec_bytes() == generation_key(),
        "fuga.version".spec_bytes().len() == 12,
        "1.0.0".spec_bytes().len() == 5,
{
    reveal_strlit("fuga.generation");
    reveal_strlit("fuga.version");
    reveal_strlit("1.0.0");
    is_ascii_chars_encode_utf8("fuga.generation"@);
    is_ascii_chars_encode_utf8("fuga.version"@);
    is_ascii_chars_encode_utf8("1.0.0"@);
    assert("fuga.generation".spec_bytes() =~= generation_key());
}

/// The entries of an export, in order: format version `1.0.0`, the
/// generation counter, the timestamp text, the dimension 8192, the
/// evaluation line when there is one, then each stored file under
/// `fuga.<name>` as a byte array.
pub fn export_entries(
    generation: u64,
    timestamp: &str,
    eval: Option<&str>,
    blobs: &Vec<(String, Vec<u8>)>,
) -> (kv: Vec<(Vec<u8>, Vec<u8>, u32)>)
    ensures
        kv@.len() == blobs_at(eval) + blobs@.len(),
        entry_is(kv@[0], "fuga.version".spec_bytes(), string_value_bytes("1.0.0".spec_bytes()), 8),
        entry_is(kv@[1], generation_key(), le64(generation), 10),
        entry_is(kv@[2], "fuga.timestamp".spec_bytes(), string_value_bytes(timestamp.spec_bytes()), 8),
        entry_is(kv@[3], "fuga.dim".spec_bytes(), le64(8192), 10),
        eval matches Some(e) ==> entry_is(kv@[4], "fuga.eval".spec_bytes(), string_value_bytes(e.spec_bytes()), 8),
        forall|j: int| 0 <= j < blobs@.len() ==> entry_is(
            #[trigger] kv@[blobs_at(eval) + j],
            "fuga.".spec_bytes() + encode_utf8(blobs@[j].0@),
            blob_value_bytes(blobs@[j].1@),
            9,
        ),
{
    proof {
        lemma_literal_bytes();
    }
    let mut kv: Vec<(Vec<u8>, Vec<u8>, u32)> = Vec::new();
    kv.push((str_bytes("fuga.version"), string_value("1.0.0"), 8u32));
    kv.push((str_bytes("fuga.generation"), u64_to_le_bytes(generation), 10u32));
    kv.push((str_bytes("fuga.timestamp"), string_value(timestamp), 8u32));
    kv.push((str_bytes("fuga.dim"), u64_to_le_bytes(8192u64), 10u32));
    match eval {
        Some(e) => kv.push((str_bytes("fuga.eval"), string_value(e), 8u32)),
        None => {},
    }
    let base = kv.len();
    let mut j: usize = 0;
    while j < blobs.len()
        invariant
            j <= blobs@.len(),
            base == blobs_at(eval),
            kv@.len() == base + j,
            entry_is(kv@[0], "fuga.version".spec_bytes(), string_value_bytes("1.0.0".spec_bytes()), 8),
            entry_is(kv@[1], generation_key(), le64(generation), 10),
            entry_is(kv@[2], "fuga.timestamp".spec_bytes(), string_value_bytes(timestamp.spec_bytes()), 8),
            entry_is(kv@[3], "fuga.dim".spec_bytes(), le64(8192), 10),
            eval matches Some(e) ==> entry_is(kv@[4], "fuga.eval".spec_bytes(), string_value_bytes(e.spec_bytes()), 8),
            forall|q: int| 0 <= q < j ==> entry_is(
                #[trigger] kv@[base + q],
                "fuga.".spec_bytes() + encode_utf8(blobs@[q].0@),
                blob_value_bytes(blobs@[q].1@),
                9,
            ),
        decreases blobs@.len() - j,
    {
        let (name, data) = &blobs[j];
        let mut key = str_bytes("fuga.");
        let name_bytes = str_bytes(name.as_str());
        push_all(&mut key, &name_bytes);
        kv.push((key, blob_value(data), 9u32));
        j = j + 1;
    }
    kv
}

proof fn lemma_entries_prefix(kv: Seq<(Vec<u8>, Vec<u8>, u32)>, k: int)
    requires
        0 <= k <= kv.len(),
    ensures
        entries_bytes(kv.take(k)).len() <= entries_bytes(kv).len(),
        entries_bytes(kv).subrange(0, entries_bytes(kv.take(k)).len() as int) == entries_bytes(kv.take(k)),
    decreases kv.len() - k,
{
    if k < kv.len() {
        lemma_entries_prefix(kv.drop_last(), k);
        assert(kv.drop_last().take(k) =~= kv.take(k));
        let a = entries_bytes(kv.take(k));
        let b = entries_bytes(kv.drop_last());
        assert(entries_bytes(kv) =~= b + entry_bytes(kv.last().0@, kv.last().1@, kv.last().2));
        assert(entries_bytes(kv).subrange(0, a.len() as int) =~= b.subrange(0, a.len() as int));
    } else {
        assert(kv.take(k) =~= kv);
        assert(entries_bytes(kv).subrange(0, entries_bytes(kv).len() as int) =~= entries_bytes(kv));
    }
}

/// What an export writes as its generation counter, reading it back finds:
/// for any entries that start with the format version and the generation
/// counter, as an export lays them out, the file's bytes give back the counter.
pub proof fn law_generation_roundtrip(kv: Seq<(Vec<u8>, Vec<u8>, u32)>, generation: u64)
    requires
        kv.len() >= 2,
        kv.len() <= u64::MAX,
        entry_is(kv[0], "fuga.version".spec_bytes(), string_value_bytes("1.0.0".spec_bytes()), 8),
        entry_is(kv[1], generation_key(), le64(generation), 10),
    ensures
        scan_generation(gguf_bytes(kv)) == GenerationScan::Found(generation),
{
    lemma_literal_bytes();
    lemma_auto_spec_u32_to_from_le_bytes();
    lemma_auto_spec_u64_to_from_le_bytes();
    let head = gguf_header(kv.len() as u64);
    let e0 = entry_bytes(kv[0].0@, kv[0].1@, kv[0].2);
    let e1 = entry_bytes(kv[1].0@, kv[1].1@, kv[1].2);
    let two = kv.take(2);
    assert(two.drop_last() =~= kv.take(1));
    assert(kv.take(1).drop_last() =~= kv.take(0));
    assert(kv.take(0).len() == 0);
    assert(entries_bytes(kv.take(0)) =~= Seq::<u8>::empty());
    assert(kv.take(1).last() == kv[0]);
    assert(two.last() == kv[1]);
    assert(entries_bytes(kv.take(1)) =~= e0);
    assert(entries_bytes(two) =~= e0 + e1);
    lemma_entries_prefix(kv, 2);
    let body = head + entries_bytes(kv);
    let d = gguf_bytes(kv);
    let pre = head + e0 + e1;
    assert(head.len() == 24);
    assert(e0.len() == 37);
    assert(e1.len() == 35);
    assert(d.subrange(0, 96) =~= pre) by {
        assert(entries_bytes(kv).subrange(0, 72) == e0 + e1);
        assert(body.subrange(0, 96) =~= head + entries_bytes(kv).subrange(0, 72));
        assert(body.subrange(0, 96) =~= pre);
    }
    assert(d.len() >= 96);
    assert forall|a: int, b: int| 0 <= a <= b <= 96 implies #[trigger] d.subrange(a, b) == pre.subrange(a, b) by {
        assert(d.subrange(a, b) =~= d.subrange(0, 96).subrange(a, b));
    }
    assert(pre.subrange(0, 4) =~= le32(GGUF_MAGIC));
    assert(pre.subrange(16, 24) =~= le64(kv.len() as u64));
    assert(pre.subrange(24, 32) =~= le64(12));
    assert(pre.subrange(44, 48) =~= le32(8));
    assert(pre.subrange(48, 56) =~= le64(5));
    assert(pre.subrange(61, 69) =~= le64(15));
    assert(pre.subrange(69, 84) =~= generation_key());
    assert(pre.subrange(84, 88) =~= le32(10));
    assert(pre.subrange(88, 96) =~= le64(generation));
    assert(d.subrange(32, 44).len() != generation_key().len());
    assert(u32_le(d, 0) == GGUF_MAGIC);
    assert(u64_le(d, 16) == kv.len());
    assert(u64_le(d, 24) == 12);
    assert(u32_le(d, 44) == 8);
    assert(u64_le(d, 48) == 5);
    assert(skip_value(d, 48, 8) == 61);
    assert(u64_le(d, 61) == 15);
    assert(u32_le(d, 84) == 10);
    assert(u64_le(d, 88) == generation);
    let cnt = u64_le(d, 16) as nat;
    assert(scan_entries(d, 61, (cnt - 1) as nat) == GenerationScan::Found(generation));
    assert(scan_entries(d, 24, cnt) == scan_entries(d, 61, (cnt - 1) as nat));
}

/// What `String::from_utf8_lossy` returns for `b`.
pub uninterp spec fn lossy_of(b: Seq<u8>) -> Seq<char>;

/// Calls `String::from_utf8_lossy`: the text of `b`, with each invalid
/// UTF-8 sequence replaced by U+FFFD. The contract names the result and
/// states that valid UTF-8 comes back unchanged.
#[verifier::external_body]
fn lossy_text(b: &[u8]) -> (s: String)
    ensures
        s@ == lossy_of(b@),
        vstd::utf8::valid_utf8(b@) ==> s@ == vstd::utf8::decode_utf8(b@),
{
    String::from_utf8_lossy(b).into_owned()
}

/// How a listed entry's value is shown.
#[derive(Debug)]
pub enum GgufValueInfo {
    /// A string value, or `(truncated)` when it runs past the end.
    Text(String),
    /// A byte-array value: element count, element type, bytes it covers.
    Array(u64, u32, u64),
    /// A `u64` value.
    Uint(u64),
    /// A value of another type: only the type is shown.
    Other,
}

/// One listed entry.
#[derive(Debug)]
pub struct GgufEntryInfo {
    pub key: String,
    pub vtype: u32,
    pub value: GgufValueInfo,
}

/// The header fields and the entries of a GGUF file, as listed.
#[derive(Debug)]
pub struct GgufListing {
    pub version: u32,
    pub kv_count: u64,
    pub entries: Vec<GgufEntryInfo>,
}

/// Why a listing was refused.
#[derive(Debug, Clone, Copy, PartialEq, Eq, Structural)]
pub enum GgufInspectError {
    TooShort,
    BadMagic,
}

impl GgufInspectError {
    /// The error as text.
    pub fn message(&self) -> (s: &'static str)
        ensures
            s@ == (match *self {
                GgufInspectError::TooShort => "too short"@,
                GgufInspectError::BadMagic => "bad magic"@,
            }),
    {
        match self {
            GgufInspectError::TooShort => "too short",
            GgufInspectError::BadMagic => "bad magic",
        }
    }
}

/// A shown value in terms of the bytes: a string's byte range, a truncated
/// string, an array's count, type and covered bytes, a `u64`, or another type.
pub enum ShownValue {
    Text(usize, usize),
    Truncated,
    Array(u64, u32, u64),
    Uint(u64),
    Other,
}

/// One listed entry in terms of the bytes: key start, key length, type, value.
pub type ShownEntry = (int, int, u32, ShownValue);

/// The entries listed when walking at most `remaining` entries from `off`;
/// a walk stops at the first entry that does not fit, and a `u64` entry
/// without its 8 bytes is passed over unlisted.
pub open spec fn listed_entries(d: Seq<u8>, off: int, remaining: nat) -> Seq<ShownEntry>
    decreases remaining,
{
    if remaining == 0 || off + 8 > d.len() {
        Seq::empty()
    } else {
        let klen = u64_le(d, off) as int;
        let key_at = off + 8;
        if key_at + klen > d.len() {
            Seq::empty()
        } else {
            let type_at = key_at + klen;
            if type_at + 4 > d.len() {
                Seq::empty()
            } else {
                let vtype = u32_le(d, type_at);
                let v = type_at + 4;
                let rest = (remaining - 1) as nat;
                if vtype == 8 {
                    if v + 8 > d.len() {
                        Seq::empty()
                    } else {
                        let slen = u64_le(d, v) as int;
                        let shown = if v + 8 + slen <= d.len() {
                            ShownValue::Text((v + 8) as usize, (v + 8 + slen) as usize)
                        } else {
                            ShownValue::Truncated
                        };
                        seq![(key_at, klen, vtype, shown)] + listed_entries(d, v + 8 + slen, rest)
                    }
                } else if vtype == 9 {
                    if v + 12 > d.len() {
                        Seq::empty()
                    } else {
                        let et = u32_le(d, v);
                        let count = u64_le(d, v + 4);
                        let covered: u64 = if et == 0 { count } else { 0 };
                        seq![(key_at, klen, vtype, ShownValue::Array(count, et, covered))] + listed_entries(
                            d,
                            v + 12 + covered,
                            rest,
                        )
                    }
                } else if vtype == 10 {
                    if v + 8 <= d.len() {
                        seq![(key_at, klen, vtype, ShownValue::Uint(u64_le(d, v)))] + listed_entries(d, v + 8, rest)
                    } else {
                        listed_entries(d, v, rest)
                    }
                } else {
                    seq![(key_at, klen, vtype, ShownValue::Other)] + listed_entries(d, v, rest)
                }
            }
        }
    }
}

/// `info` shows entry `e` of the bytes `d`.
pub open spec fn shows(d: Seq<u8>, info: GgufEntryInfo, e: ShownEntry) -> bool {
    &&& info.key@ == lossy_of(d.subrange(e.0, e.0 + e.1))
    &&& info.vtype == e.2
    &&& match (info.value, e.3) {
        (GgufValueInfo::Text(t), ShownValue::Text(a, b)) => t@ == lossy_of(d.subrange(a as int, b as int)),
        (GgufValueInfo::Text(t), ShownValue::Truncated) => t@ == "(truncated)"@,
        (GgufValueInfo::Array(c, et, n), ShownValue::Array(c2, et2, n2)) => c == c2 && et == et2 && n == n2,
        (GgufValueInfo::Uint(x), ShownValue::Uint(y)) => x == y,
        (GgufValueInfo::Other, ShownValue::Other) => true,
        _ => false,
    }
}

/// `l` is the listing of the bytes `d`: header fields and every listed entry.
pub open spec fn lists(d: Seq<u8>, l: GgufListing) -> bool {
    &&& l.version == u32_le(d, 4)
    &&& l.kv_count == u64_le(d, 16)
    &&& l.entries@.len() == listed_entries(d, 24, l.kv_count as nat).len()
    &&& forall|k: int| 0 <= k < l.entries@.len() ==> shows(d, #[trigger] l.entries@[k], listed_entries(d, 24, l.kv_count as nat)[k])
}

/// Lists a GGUF file's header and entries: `TooShort` under 20 bytes,
/// `BadMagic` for a wrong magic; otherwise the version, the entry count the
/// header announces, and the entries as `listed_entries` walks them.
pub fn inspect_bytes(data: &[u8]) -> (r: Result<GgufListing, GgufInspectError>)
    requires
        !(20 <= data@.len() < 24),
        data@.len() + 32 <= usize::MAX,
    ensures
        data@.len() < 20 ==> r == Err::<GgufListing, GgufInspectError>(GgufInspectError::TooShort),
        data@.len() >= 20 && u32_le(data@, 0) != GGUF_MAGIC ==> r == Err::<GgufListing, GgufInspectError>(
            GgufInspectError::BadMagic),
        data@.len() >= 20 && u32_le(data@, 0) == GGUF_MAGIC ==> (r matches Ok(l) && lists(data@, l)),
{
    let n = data.len();
    if n < 20 {
        return Err(GgufInspectError::TooShort);
    }
    if read_u32(data, 0) != GGUF_MAGIC {
        return Err(GgufInspectError::BadMagic);
    }
    let version = read_u32(data, 4);
    let kv_count = read_u64(data, 16);
    let ghost all = listed_entries(data@, 24, kv_count as nat);
    let mut entries: Vec<GgufEntryInfo> = Vec::new();
    let ghost mut done: Seq<ShownEntry> = Seq::empty();
    let mut remaining: u64 = kv_count;
    let mut off: usize = 24;
    let ghost mut soff: int = 24;
    while remaining > 0
        invariant
            n == data@.len(),
            n + 32 <= usize::MAX,
            n >= 24,
            all == listed_entries(data@, 24, kv_count as nat),
            all == done + listed_entries(data@, soff, remaining as nat),
            entries@.len() == done.len(),
            forall|k: int| 0 <= k < done.len() ==> shows(data@, #[trigger] entries@[k], done[k]),
            soff >= 24,
            soff <= n ==> off == soff,
            soff > n ==> off == n + 1,
        ensures
            all == done + listed_entries(data@, soff, remaining as nat),
            entries@.len() == done.len(),
            forall|k: int| 0 <= k < done.len() ==> shows(data@, #[trigger] entries@[k], done[k]),
            listed_entries(data@, soff, remaining as nat).len() == 0,
        decreases remaining,
    {
        if off + 8 > n {
            break;
        }
        let klen = read_u64(data, off);
        let key_at = off + 8;
        let avail = (n - key_at) as u64;
        if klen > avail {
            break;
        }
        let klen = klen as usize;
        let type_at = key_at + klen;
        if type_at + 4 > n {
            break;
        }
        let key = lossy_text(&data[key_at..type_at]);
        assert(data@.subrange(key_at as int, type_at as int) == data@.subrange(key_at as int, key_at + klen));
        let vtype = read_u32(data, type_at);
        let v = type_at + 4;
        let ghost rest = (remaining - 1) as nat;
        if vtype == 8 {
            if v + 8 > n {
                break;
            }
            let slen = read_u64(data, v);
            let room = (n - (v + 8)) as u64;
            let (value, next) = if slen <= room {
                let e = v + 8 + slen as usize;
                (GgufValueInfo::Text(lossy_text(&data[v + 8..e])), e)
            } else {
                (GgufValueInfo::Text(String::from_str("(truncated)")), n + 1)
            };
            proof {
                reveal_strlit("(truncated)");
                let shown = if v + 8 + slen <= n {
                    ShownValue::Text((v + 8) as usize, (v + 8 + slen) as usize)
                } else {
                    ShownValue::Truncated
                };
                done = done.push((key_at as int, klen as int, vtype, shown));
                soff = v + 8 + slen;
            }
            entries.push(GgufEntryInfo { key, vtype, value });
            off = next;
        } else if vtype == 9 {
            if v + 12 > n {
                break;
            }
            let et = read_u32(data, v);
            let count = read_u64(data, v + 4);
            let covered: u64 = if et == 0 { count } else { 0 };
            let room = (n - (v + 12)) as u64;
            let next = if covered <= room { v + 12 + covered as usize } else { n + 1 };
            proof {
                done = done.push((key_at as int, klen as int, vtype, ShownValue::Array(count, et, covered)));
                soff = v + 12 + covered;
            }
            entries.push(GgufEntryInfo { key, vtype, value: GgufValueInfo::Array(count, et, covered) });
            off = next;
        } else if vtype == 10 {
            if v + 8 <= n {
                let x = read_u64(data, v);
                proof {
                    done = done.push((key_at as int, klen as int, vtype, ShownValue::Uint(x)));
                    soff = v + 8;
                }
                entries.push(GgufEntryInfo { key, vtype, value: GgufValueInfo::Uint(x) });
                off = v + 8;
            } else {
                proof {
                    soff = v as int;
                }
                off = v;
            }
        } else {
            proof {
                done = done.push((key_at as int, klen as int, vtype, ShownValue::Other));
                soff = v as int;
            }
            entries.push(GgufEntryInfo { key, vtype, value: GgufValueInfo::Other });
            off = v;
        }
        remaining = remaining - 1;
        assert(all =~= done + listed_entries(data@, soff, remaining as nat));
    }
    assert(all =~= done);
    Ok(GgufListing { version, kv_count, entries })
}

/// A built file always ends on a 32-byte boundary, past its header.
pub proof fn law_gguf_aligned(kv: Seq<(Vec<u8>, Vec<u8>, u32)>)
    ensures
        gguf_bytes(kv).len() % 32 == 0,
        gguf_bytes(kv).len() >= 24,
{
    lemma_auto_spec_u32_to_from_le_bytes();
    lemma_auto_spec_u64_to_from_le_bytes();
    let b = gguf_header(kv.len() as u64) + entries_bytes(kv);
    let n = b.len();
    assert(gguf_header(kv.len() as u64).len() == 24);
    assert(((n + 31) / 32) * 32 >= n) by (nonlinear_arith);
    assert((((n + 31) / 32) * 32) % 32 == 0) by (nonlinear_arith);
    assert(gguf_bytes(kv).len() == ((n + 31) / 32) * 32);
}

} // verus!
