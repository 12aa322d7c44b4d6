//! World persistence formats: the binary edit overlay (`edits.bin`), the
//! chunk mesh cache header and index block, the `world.conf` header's
//! integer fields, and the cache file names.
use vstd::prelude::*;

use crate::block::{BlockType, spec_block_from_id, spec_block_id, lemma_block_id_round_trip};
use crate::text::{
    all_digits, chars_eq_str, chars_to_string, digits_value, find_char, find_char_exec, is_digit,
    lemma_digits_prefix_le, lines_of, push_signed_decimal, push_str_chars, signed_decimal, str_chars, trim,
    trim_chars,
};

verus! {

/// Bump when the mesh cache layout or block ids change.
pub const FORMAT_VERSION: u32 = 2;

/// Bump whenever terrain generation changes shape; chunk caches are tagged
/// with it (XOR the seed) so stale meshes are ignored.
pub const TERRAIN_VERSION: u64 = 3;

/// Little-endian bytes of a `u16`.
pub open spec fn le16(v: nat) -> Seq<u8> {
    seq![(v % 256) as u8, ((v / 256) % 256) as u8]
}

/// Little-endian bytes of a `u32`.
pub open spec fn le32(v: nat) -> Seq<u8> {
    le16(v % 65536) + le16((v / 65536) % 65536)
}

/// Little-endian bytes of a `u64`.
pub open spec fn le64(v: nat) -> Seq<u8> {
    le32(v % 4294967296) + le32((v / 4294967296) % 4294967296)
}

/// Two's-complement bit pattern of an `i32`, as an unsigned value.
pub open spec fn i32_bits(x: int) -> nat {
    if x < 0 {
        (x + 4294967296) as nat
    } else {
        x as nat
    }
}

/// Value of two little-endian bytes.
pub open spec fn from_le16(b: Seq<u8>) -> nat {
    (b[0] + 256 * b[1]) as nat
}

/// Value of four little-endian bytes.
pub open spec fn from_le32(b: Seq<u8>) -> nat {
    (b[0] + 256 * b[1] + 65536 * b[2] + 16777216 * b[3]) as nat
}

/// Value of eight little-endian bytes.
pub open spec fn from_le64(b: Seq<u8>) -> nat {
    from_le32(b.take(4)) + 4294967296 * from_le32(b.subrange(4, 8))
}

/// The `i32` whose two's-complement pattern is `u`.
pub open spec fn i32_of_bits(u: nat) -> int {
    if u >= 2147483648 {
        u - 4294967296
    } else {
        u as int
    }
}

pub proof fn lemma_le32_round_trip(v: nat)
    requires
        v < 4294967296,
    ensures
        le32(v).len() == 4,
        from_le32(le32(v)) == v,
{
}

pub proof fn lemma_le16_round_trip(v: nat)
    requires
        v < 65536,
    ensures
        le16(v).len() == 2,
        from_le16(le16(v)) == v,
{
}

pub proof fn lemma_le64_round_trip(v: nat)
    requires
        v < 18446744073709551616,
    ensures
        le64(v).len() == 8,
        from_le64(le64(v)) == v,
{
    lemma_le32_round_trip(v % 4294967296);
    lemma_le32_round_trip((v / 4294967296) % 4294967296);
    assert(le64(v).take(4) =~= le32(v % 4294967296));
    assert(le64(v).subrange(4, 8) =~= le32((v / 4294967296) % 4294967296));
}

/// Append the little-endian bytes of `v`.
pub fn push_le16(out: &mut Vec<u8>, v: u16)
    ensures
        final(out)@ == old(out)@ + le16(v as nat),
{
    out.push((v % 256) as u8);
    out.push(((v / 256) % 256) as u8);
    assert(final(out)@ =~= old(out)@ + le16(v as nat));
}

/// Append the little-endian bytes of `v`.
pub fn push_le32(out: &mut Vec<u8>, v: u32)
    ensures
        final(out)@ == old(out)@ + le32(v as nat),
{
    push_le16(out, (v % 65536) as u16);
    push_le16(out, ((v / 65536) % 65536) as u16);
    assert(final(out)@ =~= old(out)@ + le32(v as nat));
}

/// Append the little-endian bytes of `v`.
pub fn push_le64(out: &mut Vec<u8>, v: u64)
    ensures
        final(out)@ == old(out)@ + le64(v as nat),
{
    push_le32(out, (v % 4294967296) as u32);
    push_le32(out, ((v / 4294967296) % 4294967296) as u32);
    assert(final(out)@ =~= old(out)@ + le64(v as nat));
}

/// Append the little-endian two's-complement bytes of `x`.
pub fn push_le_i32(out: &mut Vec<u8>, x: i32)
    ensures
        final(out)@ == old(out)@ + le32(i32_bits(x as int)),
{
    let u: u32 = if x < 0 {
        (x as i64 + 4294967296i64) as u32
    } else {
        x as u32
    };
    push_le32(out, u);
}

/// Read a little-endian `u16` at `off`.
pub fn read_le16(b: &[u8], off: usize) -> (r: u16)
    requires
        off + 2 <= b.len(),
    ensures
        r == from_le16(b@.subrange(off as int, off + 2)),
{
    b[off] as u16 + 256 * (b[off + 1] as u16)
}

/// Read a little-endian `u32` at `off`.
pub fn read_le32(b: &[u8], off: usize) -> (r: u32)
    requires
        off + 4 <= b.len(),
    ensures
        r == from_le32(b@.subrange(off as int, off + 4)),
{
    b[off] as u32 + 256 * (b[off + 1] as u32) + 65536 * (b[off + 2] as u32) + 16777216 * (b[off + 3] as u32)
}

/// Read a little-endian `u64` at `off`.
pub fn read_le64(b: &[u8], off: usize) -> (r: u64)
    requires
        off + 8 <= b.len(),
    ensures
        r == from_le64(b@.subrange(off as int, off + 8)),
{
    let lo = read_le32(b, off);
    let hi = read_le32(b, off + 4);
    assert(b@.subrange(off as int, off + 8).take(4) =~= b@.subrange(off as int, off + 4));
    assert(b@.subrange(off as int, off + 8).subrange(4, 8) =~= b@.subrange(off + 4, off + 8));
    lo as u64 + 4294967296u64 * (hi as u64)
}

/// Read a little-endian two's-complement `i32` at `off`.
pub fn read_le_i32(b: &[u8], off: usize) -> (r: i32)
    requires
        off + 4 <= b.len(),
    ensures
        r == i32_of_bits(from_le32(b@.subrange(off as int, off + 4))),
{
    let u = read_le32(b, off);
    if u >= 2147483648 {
        (u as i64 - 4294967296i64) as i32
    } else {
        u as i32
    }
}


/// One edit record: x, y, z (little-endian `i32`s) and the block id byte.
pub open spec fn edit_record(e: ([i32; 3], BlockType)) -> Seq<u8> {
    le32(i32_bits(e.0@[0] as int)) + le32(i32_bits(e.0@[1] as int)) + le32(i32_bits(e.0@[2] as int))
        + seq![spec_block_id(e.1)]
}

/// The records of `edits`, in order.
pub open spec fn edit_records(edits: Seq<([i32; 3], BlockType)>) -> Seq<u8>
    decreases edits.len(),
{
    if edits.len() == 0 {
        seq![]
    } else {
        edit_record(edits[0]) + edit_records(edits.drop_first())
    }
}

/// The whole edit file: the format version, then one record per edit.
pub open spec fn spec_encode_edits(edits: Seq<([i32; 3], BlockType)>) -> Seq<u8> {
    le32(FORMAT_VERSION as nat) + edit_records(edits)
}

/// The edit a 13-byte record stands for, when its id byte names a type.
pub open spec fn decode_record(b: Seq<u8>) -> Option<([i32; 3], BlockType)> {
    match spec_block_from_id(b[12]) {
        Some(t) => Some(
            (
                [
                    i32_of_bits(from_le32(b.subrange(0, 4))) as i32,
                    i32_of_bits(from_le32(b.subrange(4, 8))) as i32,
                    i32_of_bits(from_le32(b.subrange(8, 12))) as i32,
                ],
                t,
            ),
        ),
        None => None,
    }
}

/// Edits read from a run of records: whole records in order, those with an
/// unknown id skipped, a partial trailing record ignored.
pub open spec fn decode_records(b: Seq<u8>) -> Seq<([i32; 3], BlockType)>
    decreases b.len(),
{
    if b.len() < 13 {
        seq![]
    } else {
        let rest = decode_records(b.skip(13));
        match decode_record(b.take(13)) {
            Some(e) => seq![e] + rest,
            None => rest,
        }
    }
}

/// Edits read from an edit file: `None` when it is shorter than the
/// version field or was written by another format version.
pub open spec fn spec_decode_edits(b: Seq<u8>) -> Option<Seq<([i32; 3], BlockType)>> {
    if b.len() < 4 || from_le32(b.take(4)) != FORMAT_VERSION as nat {
        None
    } else {
        Some(decode_records(b.skip(4)))
    }
}

proof fn lemma_edit_records_push(s: Seq<([i32; 3], BlockType)>, e: ([i32; 3], BlockType))
    ensures
        edit_records(s.push(e)) == edit_records(s) + edit_record(e),
    decreases s.len(),
{
    if s.len() == 0 {
        assert(s.push(e).drop_first() =~= s);
        assert(s.push(e)[0] == e);
        assert(edit_records(s) == Seq::<u8>::empty());
        assert(edit_records(s.push(e)) =~= edit_record(e) + edit_records(s));
        assert(edit_records(s.push(e)) =~= edit_record(e));
    } else {
        assert(s.push(e).drop_first() =~= s.drop_first().push(e));
        lemma_edit_records_push(s.drop_first(), e);
        assert(edit_records(s.push(e)) =~= edit_records(s) + edit_record(e));
    }
}

/// The bytes of the edit file (`edits.bin`) for the whole edit overlay:
/// the format version, then `[x, y, z, id]` per edit, in order.
pub fn save_edits(edits: &[([i32; 3], BlockType)]) -> (r: Vec<u8>)
    ensures
        r@ == spec_encode_edits(edits@),
{
    let mut out: Vec<u8> = Vec::new();
    push_le32(&mut out, FORMAT_VERSION);
    let mut i: usize = 0;
    while i < edits.len()
        invariant
            i <= edits.len(),
            out@ == le32(FORMAT_VERSION as nat) + edit_records(edits@.take(i as int)),
        decreases edits.len() - i,
    {
        let (pos, t) = edits[i];
        let ghost before = out@;
        push_le_i32(&mut out, pos[0]);
        push_le_i32(&mut out, pos[1]);
        push_le_i32(&mut out, pos[2]);
        out.push(t.id());
        proof {
            assert(edits@.take(i + 1) =~= edits@.take(i as int).push(edits@[i as int]));
            lemma_edit_records_push(edits@.take(i as int), edits@[i as int]);
            assert(out@ =~= before + edit_record(edits@[i as int]));
        }
        i = i + 1;
    }
    assert(edits@.take(edits.len() as int) =~= edits@);
    out
}

/// The edits an edit file's bytes hold (see [`spec_decode_edits`]).
pub fn load_edits(bytes: &[u8]) -> (r: Option<Vec<([i32; 3], BlockType)>>)
    ensures
        match r {
            Some(v) => spec_decode_edits(bytes@) == Some(v@),
            None => spec_decode_edits(bytes@) is None,
        },
{
    if bytes.len() < 4 {
        return None;
    }
    let ver = read_le32(bytes, 0);
    assert(bytes@.subrange(0, 4) =~= bytes@.take(4));
    if ver != FORMAT_VERSION {
        return None;
    }
    let mut out: Vec<([i32; 3], BlockType)> = Vec::new();
    let mut off: usize = 4;
    while 13 <= bytes.len() - off
        invariant
            4 <= off <= bytes.len(),
            out@ + decode_records(bytes@.skip(off as int)) == decode_records(bytes@.skip(4)),
        decreases bytes.len() - off,
    {
        let ghost rest = bytes@.skip(off as int);
        let x = read_le_i32(bytes, off);
        let y = read_le_i32(bytes, off + 4);
        let z = read_le_i32(bytes, off + 8);
        let id = bytes[off + 12];
        proof {
            assert(rest.take(13).subrange(0, 4) =~= bytes@.subrange(off as int, off + 4));
            assert(rest.take(13).subrange(4, 8) =~= bytes@.subrange(off + 4, off + 8));
            assert(rest.take(13).subrange(8, 12) =~= bytes@.subrange(off + 8, off + 12));
            assert(rest.take(13)[12] == id);
            assert(rest.skip(13) =~= bytes@.skip(off + 13));
        }
        match BlockType::from_id(id) {
            Some(t) => {
                let ghost old_out = out@;
                out.push(([x, y, z], t));
                proof {
                    let e = ([x, y, z], t);
                    assert(decode_record(rest.take(13)) == Some(e)) by {
                        assert(e.0@ =~= [
                            i32_of_bits(from_le32(rest.take(13).subrange(0, 4))) as i32,
                            i32_of_bits(from_le32(rest.take(13).subrange(4, 8))) as i32,
                            i32_of_bits(from_le32(rest.take(13).subrange(8, 12))) as i32,
                        ]@);
                    }
                    assert(out@ + decode_records(bytes@.skip(off + 13)) =~= old_out + decode_records(rest));
                }
            },
            None => {},
        }
        off = off + 13;
    }
    assert(out@ + decode_records(bytes@.skip(off as int)) =~= out@);
    Some(out)
}


proof fn lemma_i32_bits_round_trip(x: i32)
    ensures
        i32_bits(x as int) < 4294967296,
        i32_of_bits(from_le32(le32(i32_bits(x as int)))) == x,
{
    lemma_le32_round_trip(i32_bits(x as int));
}

proof fn lemma_decode_record_of(e: ([i32; 3], BlockType))
    ensures
        edit_record(e).len() == 13,
        decode_record(edit_record(e)) == Some(e),
{
    let r = edit_record(e);
    let (a, b, c) = (i32_bits(e.0@[0] as int), i32_bits(e.0@[1] as int), i32_bits(e.0@[2] as int));
    lemma_i32_bits_round_trip(e.0@[0]);
    lemma_i32_bits_round_trip(e.0@[1]);
    lemma_i32_bits_round_trip(e.0@[2]);
    lemma_le32_round_trip(a);
    lemma_le32_round_trip(b);
    lemma_le32_round_trip(c);
    lemma_block_id_round_trip(e.1);
    assert(r == le32(a) + le32(b) + le32(c) + seq![spec_block_id(e.1)]);
    assert(r.subrange(0, 4) =~= le32(a));
    assert(r.subrange(4, 8) =~= le32(b));
    assert(r.subrange(8, 12) =~= le32(c));
    assert(r[12] == spec_block_id(e.1));
    let d = decode_record(r).unwrap();
    assert(d.0@[0] == e.0@[0]);
    assert(d.0@[1] == e.0@[1]);
    assert(d.0@[2] == e.0@[2]);
    assert(d.0@ =~= e.0@);
}

proof fn lemma_decode_edit_records(edits: Seq<([i32; 3], BlockType)>)
    ensures
        decode_records(edit_records(edits)) == edits,
    decreases edits.len(),
{
    if edits.len() > 0 {
        let b = edit_records(edits);
        lemma_decode_record_of(edits[0]);
        lemma_decode_edit_records(edits.drop_first());
        assert(b.take(13) =~= edit_record(edits[0]));
        assert(b.skip(13) =~= edit_records(edits.drop_first()));
        assert(seq![edits[0]] + edits.drop_first() =~= edits);
    } else {
        assert(edit_records(edits) =~= seq![]);
    }
}

/// Reading back a written edit file gives exactly the edits written, in
/// order (every block type has an id the reader knows).
pub proof fn lemma_edits_round_trip(edits: Seq<([i32; 3], BlockType)>)
    ensures
        spec_decode_edits(spec_encode_edits(edits)) == Some(edits),
{
    let b = spec_encode_edits(edits);
    lemma_le32_round_trip(FORMAT_VERSION as nat);
    assert(b.take(4) =~= le32(FORMAT_VERSION as nat));
    assert(b.skip(4) =~= edit_records(edits));
    lemma_decode_edit_records(edits);
}

/// A trailing partial record (fewer than 13 bytes) is ignored.
pub proof fn lemma_edits_ignore_partial_tail(edits: Seq<([i32; 3], BlockType)>, tail: Seq<u8>)
    requires
        tail.len() < 13,
    ensures
        spec_decode_edits(spec_encode_edits(edits) + tail) == Some(edits),
{
    let b = spec_encode_edits(edits) + tail;
    lemma_le32_round_trip(FORMAT_VERSION as nat);
    assert(b.take(4) =~= le32(FORMAT_VERSION as nat));
    assert(b.skip(4) =~= edit_records(edits) + tail);
    lemma_decode_records_tail(edits, tail);
}

proof fn lemma_decode_records_tail(edits: Seq<([i32; 3], BlockType)>, tail: Seq<u8>)
    requires
        tail.len() < 13,
    ensures
        decode_records(edit_records(edits) + tail) == edits,
    decreases edits.len(),
{
    if edits.len() > 0 {
        let b = edit_records(edits) + tail;
        lemma_decode_record_of(edits[0]);
        lemma_decode_records_tail(edits.drop_first(), tail);
        assert(b.take(13) =~= edit_record(edits[0]));
        assert(b.skip(13) =~= edit_records(edits.drop_first()) + tail);
        assert(seq![edits[0]] + edits.drop_first() =~= edits);
    } else {
        assert(edit_records(edits) + tail =~= tail);
    }
}


/// Bytes per cached vertex (eleven `f32`s: position, normal, color, uv).
pub const VERTEX_STRIDE: usize = 44;

/// Little-endian bytes of each index, in order.
pub open spec fn index_bytes(idx: Seq<u16>) -> Seq<u8>
    decreases idx.len(),
{
    if idx.len() == 0 {
        seq![]
    } else {
        le16(idx[0] as nat) + index_bytes(idx.drop_first())
    }
}

/// The cache tag of a world: its seed XOR the terrain version.
pub open spec fn cache_tag(seed_tag: u64) -> u64 {
    seed_tag ^ TERRAIN_VERSION
}

/// A chunk mesh cache file: version, tag, vertex count, index count, the
/// raw vertex bytes, then the indices.
pub open spec fn spec_encode_chunk_mesh(seed_tag: u64, vertex_bytes: Seq<u8>, indices: Seq<u16>) -> Seq<u8> {
    le32(FORMAT_VERSION as nat) + le64(cache_tag(seed_tag) as nat) + le32(vertex_bytes.len() / 44) + le32(
        indices.len(),
    ) + vertex_bytes + index_bytes(indices)
}

/// The `u16`s stored little-endian in `b`.
pub open spec fn indices_of(b: Seq<u8>, n: nat) -> Seq<u16> {
    Seq::new(n, |k: int| from_le16(b.subrange(2 * k, 2 * k + 2)) as u16)
}

/// A cached chunk mesh (raw vertex bytes, indices), or `None` when the
/// file is truncated, from another version or world, has a size that does
/// not match its counts, has indices but no vertices, or an index past the
/// last vertex.
pub open spec fn spec_decode_chunk_mesh(b: Seq<u8>, seed_tag: u64) -> Option<(Seq<u8>, Seq<u16>)> {
    if b.len() < 20 {
        None
    } else {
        let ver = from_le32(b.subrange(0, 4));
        let tag = from_le64(b.subrange(4, 12));
        let nv = from_le32(b.subrange(12, 16));
        let ni = from_le32(b.subrange(16, 20));
        let need = 20 + nv * 44 + ni * 2;
        if ver != FORMAT_VERSION as nat || tag != cache_tag(seed_tag) as nat {
            None
        } else if need > usize::MAX || b.len() != need || (ni > 0 && nv == 0) {
            None
        } else {
            let max_index: int = if nv == 0 {
                0
            } else if nv - 1 > 65535 {
                65535
            } else {
                nv - 1
            };
            let idx = indices_of(b.skip((20 + nv * 44) as int), ni);
            if exists|k: int| 0 <= k < ni && idx[k] > max_index {
                None
            } else {
                Some((b.subrange(20, (20 + nv * 44) as int), idx))
            }
        }
    }
}

/// The bytes of a chunk's mesh cache file (see [`spec_encode_chunk_mesh`]).
pub fn save_chunk_mesh(seed_tag: u64, vertex_bytes: &[u8], indices: &[u16]) -> (r: Vec<u8>)
    requires
        vertex_bytes.len() % 44 == 0,
        vertex_bytes.len() / 44 <= u32::MAX,
        indices.len() <= u32::MAX,
    ensures
        r@ == spec_encode_chunk_mesh(seed_tag, vertex_bytes@, indices@),
{
    let mut out: Vec<u8> = Vec::new();
    push_le32(&mut out, FORMAT_VERSION);
    push_le64(&mut out, seed_tag ^ TERRAIN_VERSION);
    push_le32(&mut out, (vertex_bytes.len() / 44) as u32);
    push_le32(&mut out, indices.len() as u32);
    let ghost head = out@;
    let mut i: usize = 0;
    assert(vertex_bytes@.take(0) =~= seq![]);
    while i < vertex_bytes.len()
        invariant
            i <= vertex_bytes.len(),
            out@ == head + vertex_bytes@.take(i as int),
        decreases vertex_bytes.len() - i,
    {
        out.push(vertex_bytes[i]);
        assert(out@ =~= head + vertex_bytes@.take(i + 1));
        i = i + 1;
    }
    assert(vertex_bytes@.take(vertex_bytes.len() as int) =~= vertex_bytes@);
    let ghost mid = out@;
    let mut j: usize = 0;
    assert(indices@.skip(0) =~= indices@);
    while j < indices.len()
        invariant
            j <= indices.len(),
            out@ + index_bytes(indices@.skip(j as int)) == mid + index_bytes(indices@),
        decreases indices.len() - j,
    {
        let ghost o = out@;
        push_le16(&mut out, indices[j]);
        proof {
            let rest = indices@.skip(j as int);
            assert(rest.drop_first() =~= indices@.skip(j + 1));
            assert(rest[0] == indices@[j as int]);
            assert(out@ + index_bytes(indices@.skip(j + 1)) =~= o + index_bytes(rest));
        }
        j = j + 1;
    }
    assert(out@ + index_bytes(indices@.skip(indices.len() as int)) =~= out@);
    out
}

/// The mesh a chunk cache file's bytes hold, if it is valid for this
/// world (see [`spec_decode_chunk_mesh`]).
pub fn load_chunk_mesh(bytes: &[u8], seed_tag: u64) -> (r: Option<(Vec<u8>, Vec<u16>)>)
    ensures
        match r {
            Some((vb, idx)) => spec_decode_chunk_mesh(bytes@, seed_tag) == Some((vb@, idx@)),
            None => spec_decode_chunk_mesh(bytes@, seed_tag) is None,
        },
{
    if bytes.len() < 20 {
        return None;
    }
    let ver = read_le32(bytes, 0);
    let tag = read_le64(bytes, 4);
    let nv = read_le32(bytes, 12);
    let ni = read_le32(bytes, 16);
    if ver != FORMAT_VERSION || tag != seed_tag ^ TERRAIN_VERSION {
        return None;
    }
    let need: u64 = 20 + (nv as u64) * 44 + (ni as u64) * 2;
    if need > usize::MAX as u64 || bytes.len() as u64 != need || (ni > 0 && nv == 0) {
        return None;
    }
    let max_index: u32 = if nv == 0 {
        0
    } else if nv - 1 > 65535 {
        65535
    } else {
        nv - 1
    };
    let vend: usize = 20 + (nv as usize) * 44;
    let mut vb: Vec<u8> = Vec::new();
    let mut i: usize = 20;
    while i < vend
        invariant
            20 <= i <= vend,
            vend <= bytes.len(),
            vb@ == bytes@.subrange(20, i as int),
        decreases vend - i,
    {
        vb.push(bytes[i]);
        assert(vb@ =~= bytes@.subrange(20, i + 1));
        i = i + 1;
    }
    let ghost tail = bytes@.skip(vend as int);
    let ghost idx_spec = indices_of(tail, ni as nat);
    let ghost res: Option<(Seq<u8>, Seq<u16>)> = if exists|j: int| 0 <= j < ni && idx_spec[j] > max_index {
        None
    } else {
        Some((bytes@.subrange(20, vend as int), idx_spec))
    };
    assert(bytes@.subrange(0, 4) =~= bytes@.subrange(0, 4));
    assert(spec_decode_chunk_mesh(bytes@, seed_tag) == res);
    let mut idx: Vec<u16> = Vec::new();
    let mut k: usize = 0;
    while k < ni as usize
        invariant
            k <= ni,
            vend + 2 * ni == bytes.len(),
            tail == bytes@.skip(vend as int),
            idx_spec == indices_of(tail, ni as nat),
            idx@ == idx_spec.take(k as int),
            forall|j: int| 0 <= j < k ==> idx_spec[j] <= max_index,
            spec_decode_chunk_mesh(bytes@, seed_tag) == res,
            vb@ == bytes@.subrange(20, vend as int),
            res == (if exists|j: int| 0 <= j < ni && idx_spec[j] > max_index {
                None
            } else {
                Some((bytes@.subrange(20, vend as int), idx_spec))
            }),
        decreases ni - k,
    {
        let v = read_le16(bytes, vend + 2 * k);
        assert(tail.subrange(2 * k, 2 * k + 2) =~= bytes@.subrange(vend + 2 * k, vend + 2 * k + 2));
        assert(idx_spec[k as int] == v);
        if v as u32 > max_index {
            assert(idx_spec[k as int] > max_index);
            return None;
        }
        idx.push(v);
        assert(idx@ =~= idx_spec.take(k + 1));
        k = k + 1;
    }
    assert(idx@ =~= idx_spec);
    Some((vb, idx))
}


proof fn lemma_index_bytes(idx: Seq<u16>)
    ensures
        index_bytes(idx).len() == 2 * idx.len(),
        forall|k: int| 0 <= k < idx.len() ==> #[trigger] index_bytes(idx).subrange(2 * k, 2 * k + 2) == le16(idx[k] as nat),
    decreases idx.len(),
{
    if idx.len() > 0 {
        let rest = idx.drop_first();
        lemma_index_bytes(rest);
        let b = index_bytes(idx);
        assert forall|k: int| 0 <= k < idx.len() implies #[trigger] b.subrange(2 * k, 2 * k + 2) == le16(idx[k] as nat) by {
            if k == 0 {
                assert(b.subrange(0, 2) =~= le16(idx[0] as nat));
            } else {
                assert(index_bytes(rest).subrange(2 * (k - 1), 2 * (k - 1) + 2) == le16(rest[k - 1] as nat));
                assert(b.subrange(2 * k, 2 * k + 2) =~= index_bytes(rest).subrange(2 * (k - 1), 2 * (k - 1) + 2));
            }
        }
    }
}

proof fn lemma_cache_tag_injective(a: u64, b: u64)
    ensures
        cache_tag(a) == cache_tag(b) ==> a == b,
{
    assert(a ^ 3u64 == b ^ 3u64 ==> a == b) by (bit_vector);
}

/// Reading a written chunk mesh back with the same seed gives exactly the
/// vertex bytes and indices written, provided every index names a vertex;
/// with any other seed the file is rejected.
pub proof fn lemma_chunk_mesh_round_trip(seed_tag: u64, other_tag: u64, vb: Seq<u8>, idx: Seq<u16>)
    requires
        vb.len() % 44 == 0,
        vb.len() / 44 <= u32::MAX,
        idx.len() <= u32::MAX,
        spec_encode_chunk_mesh(seed_tag, vb, idx).len() <= usize::MAX,
        forall|k: int| 0 <= k < idx.len() ==> (#[trigger] idx[k]) < vb.len() / 44,
        other_tag != seed_tag,
    ensures
        spec_decode_chunk_mesh(spec_encode_chunk_mesh(seed_tag, vb, idx), seed_tag) == Some((vb, idx)),
        spec_decode_chunk_mesh(spec_encode_chunk_mesh(seed_tag, vb, idx), other_tag) is None,
{
    let b = spec_encode_chunk_mesh(seed_tag, vb, idx);
    let nv = vb.len() / 44;
    let ni = idx.len();
    lemma_le32_round_trip(FORMAT_VERSION as nat);
    lemma_le64_round_trip(cache_tag(seed_tag) as nat);
    lemma_le32_round_trip(nv);
    lemma_le32_round_trip(ni);
    lemma_index_bytes(idx);
    lemma_cache_tag_injective(seed_tag, other_tag);
    assert(b.subrange(0, 4) =~= le32(FORMAT_VERSION as nat));
    assert(b.subrange(4, 12) =~= le64(cache_tag(seed_tag) as nat));
    assert(b.subrange(12, 16) =~= le32(nv));
    assert(b.subrange(16, 20) =~= le32(ni));
    assert(nv * 44 == vb.len());
    assert(b.len() == 20 + nv * 44 + ni * 2);
    assert(b.subrange(20, (20 + nv * 44) as int) =~= vb);
    let tail = b.skip((20 + nv * 44) as int);
    assert(tail =~= index_bytes(idx));
    let got = indices_of(tail, ni);
    assert forall|k: int| 0 <= k < ni implies got[k] == idx[k] by {
        assert(tail.subrange(2 * k, 2 * k + 2) == le16(idx[k] as nat));
        lemma_le16_round_trip(idx[k] as nat);
    }
    assert(got =~= idx);
    if ni > 0 {
        assert(idx[0] < nv);
    }
    let max_index: int = if nv == 0 {
        0
    } else if nv - 1 > 65535 {
        65535
    } else {
        nv - 1
    };
    assert(!exists|k: int| 0 <= k < ni && got[k] > max_index);
}


/// Relative path of a chunk's mesh cache file inside the save directory:
/// `chunks/<cx>_<cz>.mesh`.
pub fn chunk_path(cx: i32, cz: i32) -> (r: String)
    ensures
        r@ == "chunks/"@ + signed_decimal(cx as int) + "_"@ + signed_decimal(cz as int) + ".mesh"@,
{
    let mut out: Vec<char> = Vec::new();
    push_str_chars(&mut out, "chunks/");
    push_signed_decimal(&mut out, cx as i64);
    push_str_chars(&mut out, "_");
    push_signed_decimal(&mut out, cz as i64);
    push_str_chars(&mut out, ".mesh");
    chars_to_string(&out)
}

/// What `str::parse` of an unsigned integer type whose largest value is
/// `max` gives: an optional '+', then at least one ASCII digit, in range.
pub open spec fn spec_parse_uint(s: Seq<char>, max: nat) -> Option<nat> {
    let body = if s.len() > 0 && s[0] == '+' {
        s.drop_first()
    } else {
        s
    };
    if body.len() == 0 || !all_digits(body) || digits_value(body) > max {
        None
    } else {
        Some(digits_value(body))
    }
}

/// `str::parse` of an unsigned integer type whose largest value is `max`.
pub fn parse_uint(s: &[char], max: u64) -> (r: Option<u64>)
    ensures
        r matches Some(v) ==> spec_parse_uint(s@, max as nat) == Some(v as nat),
        r is None ==> spec_parse_uint(s@, max as nat) is None,
{
    let start: usize = if s.len() > 0 && s[0] == '+' {
        1
    } else {
        0
    };
    let ghost body = if s@.len() > 0 && s@[0] == '+' {
        s@.drop_first()
    } else {
        s@
    };
    assert(body =~= s@.subrange(start as int, s@.len() as int));
    if start == s.len() {
        return None;
    }
    let mut v: u128 = 0;
    let mut i: usize = start;
    while i < s.len()
        invariant
            start <= i <= s.len(),
            start < s.len(),
            body == s@.subrange(start as int, s@.len() as int),
            body == (if s@.len() > 0 && s@[0] == '+' {
                s@.drop_first()
            } else {
                s@
            }),
            all_digits(body.take(i - start)),
            v == digits_value(body.take(i - start)),
            v <= max,
        decreases s.len() - i,
    {
        let c = s[i];
        if !('0' <= c && c <= '9') {
            assert(!is_digit(body[i - start]));
            assert(!all_digits(body));
            return None;
        }
        let d: u128 = ((c as u8) - 48u8) as u128;
        v = v * 10 + d;
        assert(body.take(i - start + 1).drop_last() =~= body.take(i - start));
        assert(all_digits(body.take(i - start + 1))) by {
            assert forall|j: int| 0 <= j < i - start + 1 implies is_digit(#[trigger] body.take(i - start + 1)[j]) by {
                if j < i - start {
                    assert(body.take(i - start + 1)[j] == body.take(i - start)[j]);
                }
            }
        }
        if v > max as u128 {
            proof {
                if all_digits(body) {
                    lemma_digits_prefix_le(body, i - start + 1);
                }
            }
            return None;
        }
        i = i + 1;
    }
    assert(body.take(i - start) =~= body);
    Some(v as u64)
}

/// The integer fields of a world header (`world.conf`): what decides
/// whether a save is loadable, and the saved fly mode.
#[derive(Clone, Copy, Debug)]
pub struct MetaHeader {
    pub version: u32,
    pub seed: u64,
    /// The `flying` line's value, when there is one.
    pub flying: Option<bool>,
}

/// The effect of one header line: `key=value`, trimmed like the settings
/// file; `version` and `seed` become 0 when their value does not parse;
/// `flying` is on for exactly `true` or `1`; other lines change nothing.
#[verifier::opaque]
pub open spec fn apply_meta_line(h: MetaHeader, line: Seq<char>) -> MetaHeader {
    let l = trim(line);
    if l.len() == 0 || l[0] == '#' {
        h
    } else {
        match find_char(l, '=') {
            None => h,
            Some(i) => {
                let k = trim(l.take(i));
                let v = trim(l.skip(i + 1));
                if k == "version"@ {
                    MetaHeader {
                        version: match spec_parse_uint(v, u32::MAX as nat) {
                            Some(n) => n as u32,
                            None => 0,
                        },
                        ..h
                    }
                } else if k == "seed"@ {
                    MetaHeader {
                        seed: match spec_parse_uint(v, u64::MAX as nat) {
                            Some(n) => n as u64,
                            None => 0,
                        },
                        ..h
                    }
                } else if k == "flying"@ {
                    MetaHeader { flying: Some(v == "true"@ || v == "1"@), ..h }
                } else {
                    h
                }
            },
        }
    }
}

pub open spec fn apply_meta_lines(h: MetaHeader, lines: Seq<Seq<char>>) -> MetaHeader
    decreases lines.len(),
{
    if lines.len() == 0 {
        h
    } else {
        apply_meta_line(apply_meta_lines(h, lines.drop_last()), lines.last())
    }
}

/// The header fields of a `world.conf` text, starting from version 0,
/// seed 0 and no fly mode.
pub open spec fn spec_parse_meta(text: Seq<char>) -> MetaHeader {
    apply_meta_lines(MetaHeader { version: 0, seed: 0, flying: None }, lines_of(text))
}

fn apply_meta_line_exec(h: &mut MetaHeader, line: &[char])
    ensures
        *final(h) == apply_meta_line(*old(h), line@),
{
    reveal(apply_meta_line);
    let l = trim_chars(line);
    if l.len() == 0 || l[0] == '#' {
        return;
    }
    let eq = find_char_exec(l.as_slice(), '=');
    match eq {
        None => {},
        Some(i) => {
            let mut head: Vec<char> = Vec::new();
            let mut tail: Vec<char> = Vec::new();
            let mut j: usize = 0;
            while j < l.len()
                invariant
                    i < l.len(),
                    j <= l.len(),
                    head@ == l@.take(if j < i { j as int } else { i as int }),
                    tail@ == (if j <= i + 1 { seq![] } else { l@.subrange(i + 1, j as int) }),
                decreases l.len() - j,
            {
                if j < i {
                    head.push(l[j]);
                    assert(head@ =~= l@.take(j + 1));
                } else if j > i {
                    tail.push(l[j]);
                    assert(tail@ =~= l@.subrange(i + 1, j + 1));
                }
                j = j + 1;
            }
            assert(tail@ =~= l@.skip(i + 1));
            let k = trim_chars(head.as_slice());
            let v = trim_chars(tail.as_slice());
            if chars_eq_str(k.as_slice(), "version") {
                h.version = match parse_uint(v.as_slice(), 4294967295u64) {
                    Some(n) => n as u32,
                    None => 0,
                };
            } else if chars_eq_str(k.as_slice(), "seed") {
                h.seed = match parse_uint(v.as_slice(), 18446744073709551615u64) {
                    Some(n) => n,
                    None => 0,
                };
            } else if chars_eq_str(k.as_slice(), "flying") {
                let on = chars_eq_str(v.as_slice(), "true") || chars_eq_str(v.as_slice(), "1");
                h.flying = Some(on);
            }
        },
    }
}

/// The header fields of a `world.conf` text (see [`spec_parse_meta`]).
pub fn parse_meta(text: &str) -> (h: MetaHeader)
    ensures
        h == spec_parse_meta(text@),
{
    let cs = str_chars(text);
    let mut h = MetaHeader { version: 0, seed: 0, flying: None };
    let mut cur: Vec<char> = Vec::new();
    let mut i: usize = 0;
    while i < cs.len()
        invariant
            i <= cs.len(),
            cs@ == text@,
            lines_of(cs@.take(i as int)).len() >= 1,
            h == apply_meta_lines(MetaHeader { version: 0, seed: 0, flying: None }, lines_of(cs@.take(i as int)).drop_last()),
            cur@ == lines_of(cs@.take(i as int)).last(),
        decreases cs.len() - i,
    {
        let ghost pre = cs@.take(i as int);
        let ghost ls = lines_of(pre);
        let c = cs[i];
        proof {
            assert(cs@.take(i + 1).drop_last() =~= pre);
            assert(cs@.take(i + 1).last() == c);
        }
        if c == '\n' {
            apply_meta_line_exec(&mut h, cur.as_slice());
            cur = Vec::new();
            proof {
                let nl = lines_of(cs@.take(i + 1));
                assert(nl == ls.push(seq![]));
                assert(nl.drop_last() =~= ls);
                assert(ls =~= ls.drop_last().push(ls.last()));
            }
        } else {
            cur.push(c);
            proof {
                let nl = lines_of(cs@.take(i + 1));
                assert(nl == ls.update(ls.len() - 1, ls.last().push(c)));
                assert(nl.drop_last() =~= ls.drop_last());
            }
        }
        i = i + 1;
    }
    proof {
        assert(cs@.take(cs.len() as int) =~= cs@);
    }
    let ghost ls = lines_of(cs@);
    apply_meta_line_exec(&mut h, cur.as_slice());
    assert(ls =~= ls.drop_last().push(ls.last()));
    h
}

/// A header describes a readable save: a version this format reads (the
/// current one or an older one) and a non-zero seed.
pub open spec fn spec_meta_loadable(h: MetaHeader) -> bool {
    !(h.version == 0 || h.version > FORMAT_VERSION || h.seed == 0)
}

/// The header of a `world.conf` text, when it describes a readable save
/// (see [`spec_meta_loadable`]); `None` otherwise.
pub fn load_meta(text: &str) -> (r: Option<MetaHeader>)
    ensures
        r == (if spec_meta_loadable(spec_parse_meta(text@)) {
            Some(spec_parse_meta(text@))
        } else {
            None
        }),
{
    let h = parse_meta(text);
    if h.version == 0 || h.version > FORMAT_VERSION || h.seed == 0 {
        None
    } else {
        Some(h)
    }
}

} // verus!
