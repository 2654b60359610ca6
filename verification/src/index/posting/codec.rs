//! How storage ids are written into a posting record.
//!
//! A record is the concatenation of its ids' encodings, with nothing in between.
//! Two encodings exist: eight big-endian bytes per id, or an unsigned varint of
//! one to ten bytes (seven payload bits per byte, least significant group first,
//! the top bit set on every byte but the last).

use vstd::prelude::*;

verus! {

/// The last `width` base-256 digits of `n`, most significant first.
pub open spec fn be_bytes(n: nat, width: nat) -> Seq<u8>
    decreases width,
{
    if width == 0 {
        Seq::empty()
    } else {
        be_bytes(n / 256, (width - 1) as nat).push((n % 256) as u8)
    }
}

/// The number that big-endian bytes stand for.
pub open spec fn be_value(bytes: Seq<u8>) -> nat
    decreases bytes.len(),
{
    if bytes.len() == 0 {
        0
    } else {
        be_value(bytes.drop_last()) * 256 + bytes.last() as nat
    }
}

/// The eight big-endian bytes of `id`.
pub open spec fn fixed_bytes(id: u64) -> Seq<u8> {
    be_bytes(id as nat, 8)
}

/// The unsigned varint of `n`: seven bits per byte, least significant group
/// first, the top bit marking that another byte follows.
pub open spec fn varint_bytes(n: nat) -> Seq<u8>
    decreases n,
{
    if n < 128 {
        seq![n as u8]
    } else {
        seq![(n % 128 + 128) as u8] + varint_bytes(n / 128)
    }
}

/// The encoding of one id.
pub open spec fn id_bytes(id: u64, compressed: bool) -> Seq<u8> {
    if compressed {
        varint_bytes(id as nat)
    } else {
        fixed_bytes(id)
    }
}

/// The record that holds `ids` in this order.
pub open spec fn encode_ids(ids: Seq<u64>, compressed: bool) -> Seq<u8>
    decreases ids.len(),
{
    if ids.len() == 0 {
        Seq::empty()
    } else {
        encode_ids(ids.drop_last(), compressed) + id_bytes(ids.last(), compressed)
    }
}

/// Whether `bytes` is the record of some sequence of ids.
pub open spec fn is_record(bytes: Seq<u8>, compressed: bool) -> bool {
    exists|ids: Seq<u64>| encode_ids(ids, compressed) == bytes
}

/// The ids that a record holds, in stored order.
pub open spec fn record_ids(bytes: Seq<u8>, compressed: bool) -> Seq<u64> {
    choose|ids: Seq<u64>| encode_ids(ids, compressed) == bytes
}

/// `n` divided by 256, `width` times over.
pub open spec fn shifted(n: nat, width: nat) -> nat
    decreases width,
{
    if width == 0 {
        n
    } else {
        shifted(n / 256, (width - 1) as nat)
    }
}

/// Big-endian bytes are as many as asked for, and give the number back once
/// they are wide enough for it.
pub proof fn lemma_be_roundtrip(n: nat, width: nat)
    ensures
        be_bytes(n, width).len() == width,
        shifted(n, width) == 0 ==> be_value(be_bytes(n, width)) == n,
    decreases width,
{
    if width > 0 {
        lemma_be_roundtrip(n / 256, (width - 1) as nat);
        assert(be_bytes(n, width).drop_last() == be_bytes(n / 256, (width - 1) as nat));
    }
}

/// Eight bytes are wide enough for every `u64`.
pub proof fn lemma_fixed_roundtrip(id: u64)
    ensures
        fixed_bytes(id).len() == 8,
        be_value(fixed_bytes(id)) == id,
{
    reveal_with_fuel(shifted, 9);
    lemma_be_roundtrip(id as nat, 8);
}

/// The first byte of a varint tells whether more follow, and the rest is the
/// varint of the remaining groups.
pub proof fn lemma_varint_shape(n: nat)
    ensures
        varint_bytes(n).len() >= 1,
        varint_bytes(n)[0] < 128 <==> n < 128,
        n < 128 ==> varint_bytes(n) == seq![n as u8],
        n >= 128 ==> varint_bytes(n)[0] == n % 128 + 128,
        n >= 128 ==> varint_bytes(n).skip(1) == varint_bytes(n / 128),
    decreases n,
{
    if n >= 128 {
        lemma_varint_shape(n / 128);
    }
}

/// The varint of a `u64` has at most ten bytes.
pub proof fn lemma_varint_at_most_ten(id: u64)
    ensures
        1 <= varint_bytes(id as nat).len() <= 10,
{
    reveal_with_fuel(varint_bytes, 11);
}

/// The varint of a number below two to the fifty-sixth has at most eight
/// bytes: it is no longer than the fixed encoding.
pub proof fn lemma_varint_at_most_eight(id: u64)
    requires
        id < 0x100_0000_0000_0000,
    ensures
        varint_bytes(id as nat).len() <= 8,
{
    reveal_with_fuel(varint_bytes, 9);
}

/// A record of ids below two to the fifty-sixth is no longer with varints
/// than with eight bytes for each id. A larger id takes nine or ten bytes as
/// a varint.
pub proof fn lemma_compressed_not_longer(ids: Seq<u64>)
    requires
        forall|i: int| 0 <= i < ids.len() ==> #[trigger] ids[i] < 0x100_0000_0000_0000,
    ensures
        encode_ids(ids, true).len() <= encode_ids(ids, false).len(),
    decreases ids.len(),
{
    if ids.len() > 0 {
        assert forall|i: int| 0 <= i < ids.drop_last().len() implies #[trigger] ids.drop_last()[i]
            < 0x100_0000_0000_0000 by {
            assert(ids.drop_last()[i] == ids[i]);
        }
        lemma_compressed_not_longer(ids.drop_last());
        lemma_varint_at_most_eight(ids.last());
        lemma_id_bytes_len(ids.last(), false);
    }
}

/// Every id takes at least one byte, at most ten, and exactly eight when the
/// encoding is the fixed one.
pub proof fn lemma_id_bytes_len(id: u64, compressed: bool)
    ensures
        1 <= id_bytes(id, compressed).len() <= 10,
        !compressed ==> id_bytes(id, compressed).len() == 8,
{
    lemma_varint_at_most_ten(id);
    lemma_be_roundtrip(id as nat, 8);
}

proof fn lemma_varint_prefix_free(a: nat, ra: Seq<u8>, b: nat, rb: Seq<u8>)
    requires
        varint_bytes(a) + ra == varint_bytes(b) + rb,
    ensures
        a == b,
        ra == rb,
    decreases a,
{
    lemma_varint_shape(a);
    lemma_varint_shape(b);
    let whole = varint_bytes(a) + ra;
    assert(whole[0] == varint_bytes(a)[0]);
    assert(whole[0] == varint_bytes(b)[0]);
    if a < 128 {
        assert(varint_bytes(a)[0] == a);
        assert(b < 128);
        assert(varint_bytes(b)[0] == b);
        assert(ra == whole.skip(1));
        assert(rb == whole.skip(1));
    } else {
        assert(b >= 128);
        assert(whole.skip(1) == varint_bytes(a / 128) + ra);
        assert(whole.skip(1) == varint_bytes(b / 128) + rb);
        lemma_varint_prefix_free(a / 128, ra, b / 128, rb);
    }
}

/// No encoding of an id is the start of another's: two byte strings that each
/// begin with an id and agree as a whole begin with the same id.
pub proof fn lemma_id_bytes_prefix_free(a: u64, ra: Seq<u8>, b: u64, rb: Seq<u8>, compressed: bool)
    requires
        id_bytes(a, compressed) + ra == id_bytes(b, compressed) + rb,
    ensures
        a == b,
        ra == rb,
{
    if compressed {
        lemma_varint_prefix_free(a as nat, ra, b as nat, rb);
    } else {
        lemma_fixed_roundtrip(a);
        lemma_fixed_roundtrip(b);
        let whole = fixed_bytes(a) + ra;
        assert(whole.subrange(0, 8) == fixed_bytes(a));
        assert(whole.subrange(0, 8) == fixed_bytes(b));
        assert(ra == whole.skip(8));
        assert(rb == whole.skip(8));
    }
}

/// Appending an id to the ids appends its bytes to the record.
pub proof fn lemma_encode_ids_push(ids: Seq<u64>, id: u64, compressed: bool)
    ensures
        encode_ids(ids.push(id), compressed) == encode_ids(ids, compressed) + id_bytes(
            id,
            compressed,
        ),
{
    assert(ids.push(id).drop_last() == ids);
}

/// The record of two runs of ids is the two records, one after the other.
pub proof fn lemma_encode_ids_concat(a: Seq<u64>, b: Seq<u64>, compressed: bool)
    ensures
        encode_ids(a + b, compressed) == encode_ids(a, compressed) + encode_ids(b, compressed),
    decreases b.len(),
{
    if b.len() == 0 {
        assert(a + b == a);
        assert(encode_ids(a, compressed) + Seq::<u8>::empty() == encode_ids(a, compressed));
    } else {
        lemma_encode_ids_concat(a, b.drop_last(), compressed);
        assert((a + b).drop_last() == a + b.drop_last());
        assert((a + b).last() == b.last());
        assert(encode_ids(a + b, compressed) == (encode_ids(a, compressed) + encode_ids(
            b.drop_last(),
            compressed,
        )) + id_bytes(b.last(), compressed));
        assert(encode_ids(a + b, compressed) == encode_ids(a, compressed) + (encode_ids(
            b.drop_last(),
            compressed,
        ) + id_bytes(b.last(), compressed)));
    }
}

/// A record begins with the bytes of its first id.
pub proof fn lemma_encode_ids_front(ids: Seq<u64>, compressed: bool)
    requires
        ids.len() > 0,
    ensures
        encode_ids(ids, compressed) == id_bytes(ids[0], compressed) + encode_ids(
            ids.drop_first(),
            compressed,
        ),
{
    let head = seq![ids[0]];
    assert(head + ids.drop_first() == ids);
    lemma_encode_ids_concat(head, ids.drop_first(), compressed);
    assert(head.drop_last() == Seq::<u64>::empty());
    assert(head.last() == ids[0]);
    assert(encode_ids(head.drop_last(), compressed) == Seq::<u8>::empty());
    assert(encode_ids(head, compressed) == Seq::<u8>::empty() + id_bytes(ids[0], compressed));
    assert(Seq::<u8>::empty() + id_bytes(ids[0], compressed) == id_bytes(ids[0], compressed));
}

/// Only the empty sequence of ids has the empty record.
pub proof fn lemma_encode_ids_len(ids: Seq<u64>, compressed: bool)
    ensures
        encode_ids(ids, compressed).len() >= ids.len(),
        !compressed ==> encode_ids(ids, compressed).len() == 8 * ids.len(),
    decreases ids.len(),
{
    if ids.len() > 0 {
        lemma_encode_ids_len(ids.drop_last(), compressed);
        lemma_id_bytes_len(ids.last(), compressed);
    }
}

/// Different sequences of ids have different records.
pub proof fn lemma_encode_ids_injective(a: Seq<u64>, b: Seq<u64>, compressed: bool)
    requires
        encode_ids(a, compressed) == encode_ids(b, compressed),
    ensures
        a == b,
    decreases a.len(),
{
    lemma_encode_ids_len(a, compressed);
    lemma_encode_ids_len(b, compressed);
    if a.len() == 0 {
        assert(b.len() == 0);
        assert(a == b);
    } else {
        assert(b.len() > 0);
        lemma_encode_ids_front(a, compressed);
        lemma_encode_ids_front(b, compressed);
        lemma_id_bytes_prefix_free(
            a[0],
            encode_ids(a.drop_first(), compressed),
            b[0],
            encode_ids(b.drop_first(), compressed),
            compressed,
        );
        lemma_encode_ids_injective(a.drop_first(), b.drop_first(), compressed);
        assert(a == seq![a[0]] + a.drop_first());
        assert(b == seq![b[0]] + b.drop_first());
    }
}

/// What was encoded is a record, and the record holds what was encoded.
pub proof fn lemma_record_of(ids: Seq<u64>, compressed: bool)
    ensures
        is_record(encode_ids(ids, compressed), compressed),
        record_ids(encode_ids(ids, compressed), compressed) == ids,
{
    let bytes = encode_ids(ids, compressed);
    lemma_encode_ids_injective(record_ids(bytes, compressed), ids, compressed);
}

/// The empty byte string is the record of no ids.
pub proof fn lemma_record_empty(compressed: bool)
    ensures
        is_record(Seq::<u8>::empty(), compressed),
        record_ids(Seq::<u8>::empty(), compressed) == Seq::<u64>::empty(),
{
    assert(encode_ids(Seq::<u64>::empty(), compressed) == Seq::<u8>::empty());
    lemma_record_of(Seq::<u64>::empty(), compressed);
}

/// Two records, one after the other, are the record of the ids of the first
/// followed by the ids of the second.
pub proof fn lemma_record_concat(x: Seq<u8>, y: Seq<u8>, compressed: bool)
    requires
        is_record(x, compressed),
        is_record(y, compressed),
    ensures
        is_record(x + y, compressed),
        record_ids(x + y, compressed) == record_ids(x, compressed) + record_ids(y, compressed),
{
    let a = record_ids(x, compressed);
    let b = record_ids(y, compressed);
    lemma_encode_ids_concat(a, b, compressed);
    lemma_record_of(a + b, compressed);
}

/// A record that is not empty begins with its first id, and what follows that
/// id is the record of the others.
pub proof fn lemma_record_front(bytes: Seq<u8>, compressed: bool)
    requires
        is_record(bytes, compressed),
        bytes.len() > 0,
    ensures
        record_ids(bytes, compressed).len() > 0,
        bytes == id_bytes(record_ids(bytes, compressed)[0], compressed) + encode_ids(
            record_ids(bytes, compressed).drop_first(),
            compressed,
        ),
        is_record(
            bytes.skip(id_bytes(record_ids(bytes, compressed)[0], compressed).len() as int),
            compressed,
        ),
        record_ids(
            bytes.skip(id_bytes(record_ids(bytes, compressed)[0], compressed).len() as int),
            compressed,
        ) == record_ids(bytes, compressed).drop_first(),
{
    let ids = record_ids(bytes, compressed);
    if ids.len() == 0 {
        assert(encode_ids(ids, compressed) == Seq::<u8>::empty());
    }
    lemma_encode_ids_front(ids, compressed);
    let head = id_bytes(ids[0], compressed);
    let tail = encode_ids(ids.drop_first(), compressed);
    assert(bytes.skip(head.len() as int) == tail);
    lemma_record_of(ids.drop_first(), compressed);
}

/// `varint_simd::encode` on a `u64`: the call hands back sixteen bytes and how
/// many of them are used. The contract claims that the used bytes are the
/// unsigned varint of `id` as `varint_bytes` spells it out.
#[verifier::external_body]
fn varint_encode(id: u64) -> (bytes: Vec<u8>)
    ensures
        bytes@ == varint_bytes(id as nat),
{
    let (data, used) = varint_simd::encode(id);
    data[..used as usize].to_vec()
}

/// Writes the eight big-endian bytes of `id`.
fn fixed_encode(id: u64) -> (bytes: Vec<u8>)
    ensures
        bytes@ == fixed_bytes(id),
{
    let b7: u8 = (id % 256) as u8;
    let r6: u64 = id / 256;
    let b6: u8 = (r6 % 256) as u8;
    let r5: u64 = r6 / 256;
    let b5: u8 = (r5 % 256) as u8;
    let r4: u64 = r5 / 256;
    let b4: u8 = (r4 % 256) as u8;
    let r3: u64 = r4 / 256;
    let b3: u8 = (r3 % 256) as u8;
    let r2: u64 = r3 / 256;
    let b2: u8 = (r2 % 256) as u8;
    let r1: u64 = r2 / 256;
    let b1: u8 = (r1 % 256) as u8;
    let r0: u64 = r1 / 256;
    let b0: u8 = (r0 % 256) as u8;
    let mut bytes: Vec<u8> = Vec::with_capacity(8);
    bytes.push(b0);
    bytes.push(b1);
    bytes.push(b2);
    bytes.push(b3);
    bytes.push(b4);
    bytes.push(b5);
    bytes.push(b6);
    bytes.push(b7);
    proof {
        reveal_with_fuel(be_bytes, 9);
        assert(bytes@ == fixed_bytes(id));
    }
    bytes
}

/// Encodes one storage id.
pub fn encode_id(id: u64, compressed: bool) -> (bytes: Vec<u8>)
    ensures
        bytes@ == id_bytes(id, compressed),
{
    if compressed {
        varint_encode(id)
    } else {
        fixed_encode(id)
    }
}

/// Encodes a run of storage ids as one record.
pub fn encode_record(ids: &[u64], compressed: bool) -> (bytes: Vec<u8>)
    ensures
        bytes@ == encode_ids(ids@, compressed),
        is_record(bytes@, compressed),
        record_ids(bytes@, compressed) == ids@,
{
    let mut bytes: Vec<u8> = Vec::new();
    let mut i: usize = 0;
    while i < ids.len()
        invariant
            i <= ids.len(),
            bytes@ == encode_ids(ids@.take(i as int), compressed),
        decreases ids.len() - i,
    {
        let mut one = encode_id(ids[i], compressed);
        proof {
            lemma_encode_ids_push(ids@.take(i as int), ids@[i as int], compressed);
            assert(ids@.take(i as int).push(ids@[i as int]) == ids@.take(i + 1));
        }
        bytes.append(&mut one);
        i = i + 1;
    }
    proof {
        assert(ids@.take(i as int) == ids@);
        lemma_record_of(ids@, compressed);
    }
    bytes
}

/// Reads the eight big-endian bytes that start at `pos`.
fn fixed_decode(data: &[u8], pos: usize, Ghost(id): Ghost<u64>) -> (r: (u64, usize))
    requires
        pos + 8 <= data.len(),
        data@.subrange(pos as int, pos + 8) == fixed_bytes(id),
    ensures
        r.0 == id,
        r.1 == pos + 8,
{
    let ghost here = data@.subrange(pos as int, pos + 8);
    let b0: u64 = data[pos] as u64;
    let b1: u64 = data[pos + 1] as u64;
    let b2: u64 = data[pos + 2] as u64;
    let b3: u64 = data[pos + 3] as u64;
    let b4: u64 = data[pos + 4] as u64;
    let b5: u64 = data[pos + 5] as u64;
    let b6: u64 = data[pos + 6] as u64;
    let b7: u64 = data[pos + 7] as u64;
    proof {
        lemma_fixed_roundtrip(id);
        let s7 = here.drop_last();
        let s6 = s7.drop_last();
        let s5 = s6.drop_last();
        let s4 = s5.drop_last();
        let s3 = s4.drop_last();
        let s2 = s3.drop_last();
        let s1 = s2.drop_last();
        let s0 = s1.drop_last();
        assert(here.last() == b7 && s7.last() == b6 && s6.last() == b5 && s5.last() == b4);
        assert(s4.last() == b3 && s3.last() == b2 && s2.last() == b1 && s1.last() == b0);
        assert(s0.len() == 0);
        assert(be_value(s0) == 0);
        assert(be_value(s1) == b0);
        assert(be_value(s2) == b0 * 0x100 + b1);
        assert(be_value(s3) == b0 * 0x1_0000 + b1 * 0x100 + b2);
        assert(be_value(s4) == b0 * 0x100_0000 + b1 * 0x1_0000 + b2 * 0x100 + b3);
        assert(be_value(s5) == b0 * 0x1_0000_0000 + b1 * 0x100_0000 + b2 * 0x1_0000 + b3 * 0x100
            + b4);
        assert(be_value(s6) == b0 * 0x100_0000_0000 + b1 * 0x1_0000_0000 + b2 * 0x100_0000 + b3
            * 0x1_0000 + b4 * 0x100 + b5);
        assert(be_value(s7) == b0 * 0x1_0000_0000_0000 + b1 * 0x100_0000_0000 + b2
            * 0x1_0000_0000 + b3 * 0x100_0000 + b4 * 0x1_0000 + b5 * 0x100 + b6);
        assert(be_value(here) == b0 * 0x100_0000_0000_0000 + b1 * 0x1_0000_0000_0000 + b2
            * 0x100_0000_0000 + b3 * 0x1_0000_0000 + b4 * 0x100_0000 + b5 * 0x1_0000 + b6 * 0x100
            + b7);
    }
    let value: u64 = b0 * 0x100_0000_0000_0000 + b1 * 0x1_0000_0000_0000 + b2 * 0x100_0000_0000
        + b3 * 0x1_0000_0000 + b4 * 0x100_0000 + b5 * 0x1_0000 + b6 * 0x100 + b7;
    (value, pos + 8)
}

/// Big-endian bytes are the bytes of the number they stand for.
pub proof fn lemma_be_bytes_of_value(bytes: Seq<u8>)
    ensures
        be_bytes(be_value(bytes), bytes.len()) == bytes,
    decreases bytes.len(),
{
    if bytes.len() > 0 {
        lemma_be_bytes_of_value(bytes.drop_last());
        let n = be_value(bytes);
        assert(n / 256 == be_value(bytes.drop_last()));
        assert(n % 256 == bytes.last());
        assert(bytes.drop_last().push(bytes.last()) == bytes);
    }
}

/// Whether the encoding of `id` stands at `pos` in `data`.
pub open spec fn id_at(data: Seq<u8>, pos: int, id: u64, compressed: bool) -> bool {
    &&& pos + id_bytes(id, compressed).len() <= data.len()
    &&& data.subrange(pos, pos + id_bytes(id, compressed).len()) == id_bytes(id, compressed)
}

/// 128 to the power `k`.
pub open spec fn unit_of(k: nat) -> nat
    decreases k,
{
    if k == 0 {
        1
    } else {
        128 * unit_of((k - 1) as nat)
    }
}

/// Powers of 128 grow with the exponent, and the tenth is two to the
/// seventieth.
proof fn lemma_unit_of_bound(k: nat)
    requires
        k <= 10,
    ensures
        1 <= unit_of(k) <= 0x40_0000_0000_0000_0000,
    decreases 10 - k,
{
    if k == 10 {
        reveal_with_fuel(unit_of, 11);
    } else {
        lemma_unit_of_bound(k + 1);
    }
}

/// What the first byte of a varint that stands at `at` tells of its value.
proof fn lemma_varint_first(data: Seq<u8>, at: int, rest: nat)
    requires
        0 <= at,
        at + varint_bytes(rest).len() <= data.len(),
        data.subrange(at, at + varint_bytes(rest).len()) == varint_bytes(rest),
    ensures
        at < data.len(),
        data[at] < 128 ==> rest == data[at],
        data[at] >= 128 ==> {
            &&& rest >= 128
            &&& rest == 128 * (rest / 128) + (data[at] - 128)
            &&& rest / 128 >= 1
            &&& varint_bytes(rest).len() == 1 + varint_bytes(rest / 128).len()
            &&& data.subrange(at + 1, at + 1 + varint_bytes(rest / 128).len()) == varint_bytes(
                rest / 128,
            )
        },
{
    lemma_varint_shape(rest);
    let here = data.subrange(at, at + varint_bytes(rest).len());
    assert(here[0] == data[at]);
    if data[at] >= 128 {
        assert(here.skip(1) == varint_bytes(rest / 128));
        assert(data.subrange(at + 1, at + 1 + varint_bytes(rest / 128).len()) == here.skip(1));
    }
}

/// Whether the bytes `read` are the start of the varint of every number
/// that has `acc` as its lowest digits and more above them: the varint of
/// `acc + unit * r` is `read` followed by the varint of `r`.
pub open spec fn starts_varints(read: Seq<u8>, acc: nat, unit: nat, first: bool) -> bool {
    forall|r: nat| r >= 1 || first ==> #[trigger] starts_varint(read, acc, unit, r)
}

/// Whether the varint of `acc + unit * r` is `read` followed by the varint
/// of `r`.
pub open spec fn starts_varint(read: Seq<u8>, acc: nat, unit: nat, r: nat) -> bool {
    varint_bytes(acc + unit * r) == read + varint_bytes(r)
}

/// One more continuation byte is still the start of varints.
proof fn lemma_starts_varints_more(read: Seq<u8>, acc: nat, unit: nat, first: bool, byte: u8)
    requires
        starts_varints(read, acc, unit, first),
        byte >= 128,
    ensures
        starts_varints(read.push(byte), acc + unit * ((byte - 128) as nat), unit * 128, false),
{
    let low = (byte - 128) as nat;
    assert forall|r: nat| r >= 1 implies #[trigger] starts_varint(
        read.push(byte),
        acc + unit * low,
        unit * 128,
        r,
    ) by {
        let wide = low + 128 * r;
        assert(starts_varint(read, acc, unit, wide));
        assert((acc + unit * low) + (unit * 128) * r == acc + unit * wide) by (nonlinear_arith)
            requires
                wide == low + 128 * r,
        ;
        lemma_varint_shape(wide);
        assert(wide % 128 == low);
        assert(wide / 128 == r);
        assert(varint_bytes(wide) == seq![byte] + varint_bytes(r)) by {
            assert(varint_bytes(wide)[0] == byte);
            assert(varint_bytes(wide) == seq![varint_bytes(wide)[0]] + varint_bytes(wide).skip(1));
        }
        assert(varint_bytes(acc + unit * wide) == read + varint_bytes(wide));
        assert(read + (seq![byte] + varint_bytes(r)) == read.push(byte) + varint_bytes(r));
    }
}

/// A last byte ends the varint of the number read so far.
proof fn lemma_starts_varints_end(read: Seq<u8>, acc: nat, unit: nat, first: bool, byte: u8)
    requires
        starts_varints(read, acc, unit, first),
        byte < 128,
        byte >= 1 || first,
    ensures
        varint_bytes(acc + unit * (byte as nat)) == read.push(byte),
{
    lemma_varint_shape(byte as nat);
    assert(varint_bytes(byte as nat) == seq![byte]);
    assert(read + seq![byte] == read.push(byte));
    assert(starts_varint(read, acc, unit, byte as nat));
}

/// Reads the varint that starts at `pos`, if one does: at most ten bytes, the
/// last of them without the top bit and, unless it is the only one, not
/// zero, and a value that fits in `u64`.
fn varint_read(data: &[u8], pos: usize) -> (r: Option<(u64, usize)>)
    requires
        pos <= data.len(),
    ensures
        r matches Some(found) ==> pos < found.1 <= data.len() && data@.subrange(
            pos as int,
            found.1 as int,
        ) == varint_bytes(found.0 as nat),
        r is None ==> forall|id: u64| !id_at(data@, pos as int, id, true),
{
    let ghost valid = exists|id: u64| id_at(data@, pos as int, id, true);
    let ghost id: u64 = choose|id: u64| id_at(data@, pos as int, id, true);
    let ghost mut rest: nat = id as nat;
    let mut acc: u128 = 0;
    let mut unit: u128 = 1;
    let mut at: usize = pos;
    let mut k: usize = 0;
    proof {
        assert(data@.subrange(pos as int, at as int) == Seq::<u8>::empty());
        assert forall|r: nat| #[trigger] starts_varint(Seq::<u8>::empty(), 0, 1, r) by {
            assert(Seq::<u8>::empty() + varint_bytes(r) == varint_bytes(r));
            assert(0 + 1 * r == r);
        }
    }
    loop
        invariant
            pos <= at <= data.len(),
            at == pos + k,
            k <= 10,
            unit == unit_of(k as nat),
            acc < unit,
            valid == exists|id: u64| id_at(data@, pos as int, id, true),
            valid ==> id == acc + unit * rest,
            valid ==> at + varint_bytes(rest).len() == pos + varint_bytes(id as nat).len(),
            valid ==> at + varint_bytes(rest).len() <= data.len(),
            valid ==> data@.subrange(at as int, at + varint_bytes(rest).len()) == varint_bytes(
                rest,
            ),
            valid && k > 0 ==> rest >= 1,
            starts_varints(data@.subrange(pos as int, at as int), acc as nat, unit as nat, k == 0),
        decreases data.len() - at,
    {
        proof {
            lemma_unit_of_bound(k as nat);
            lemma_varint_at_most_ten(id);
            lemma_varint_shape(rest);
        }
        if k >= 10 || at >= data.len() {
            return None;
        }
        let byte: u8 = data[at];
        let ghost read = data@.subrange(pos as int, at as int);
        proof {
            lemma_unit_of_bound((k + 1) as nat);
            assert(unit * 128 == unit_of((k + 1) as nat));
            if valid {
                lemma_varint_first(data@, at as int, rest);
            }
            assert(data@.subrange(pos as int, at + 1) == read.push(byte));
        }
        if byte < 128 {
            if byte == 0 && k > 0 {
                return None;
            }
            assert(unit * (byte as u128) <= unit * 128) by (nonlinear_arith)
                requires
                    byte < 128,
                    unit >= 1,
            ;
            let value: u128 = acc + unit * (byte as u128);
            proof {
                lemma_starts_varints_end(read, acc as nat, unit as nat, k == 0, byte);
            }
            if value > u64::MAX as u128 {
                return None;
            }
            return Some((value as u64, at + 1));
        }
        let low: u128 = (byte - 128) as u128;
        let ghost next: nat = rest / 128;
        proof {
            if valid {
                assert(acc + unit * low + unit * 128 * next == acc + unit * rest)
                    by (nonlinear_arith)
                    requires
                        rest == 128 * next + low,
                ;
            }
            lemma_starts_varints_more(read, acc as nat, unit as nat, k == 0, byte);
            assert(acc + unit * low < unit * 128) by (nonlinear_arith)
                requires
                    low <= 127,
                    acc < unit,
            ;
        }
        acc = acc + unit * low;
        unit = unit * 128;
        at = at + 1;
        k = k + 1;
        proof {
            rest = next;
        }
    }
}

/// Reads the id that starts at `pos`, if the encoding of one does.
pub fn read_id(data: &[u8], pos: usize, compressed: bool) -> (r: Option<(u64, usize)>)
    requires
        pos <= data.len(),
    ensures
        r matches Some(found) ==> pos < found.1 <= data.len() && found.1 == pos + id_bytes(
            found.0,
            compressed,
        ).len() && id_at(data@, pos as int, found.0, compressed),
        r is None ==> forall|id: u64| !id_at(data@, pos as int, id, compressed),
{
    if compressed {
        let r = varint_read(data, pos);
        proof {
            if let Some(found) = r {
                assert(data@.subrange(pos as int, found.1 as int).len() == found.1 - pos);
            }
        }
        r
    } else {
        if data.len() - pos < 8 {
            proof {
                assert forall|id: u64| !id_at(data@, pos as int, id, compressed) by {
                    lemma_id_bytes_len(id, compressed);
                }
            }
            return None;
        }
        let ghost here = data@.subrange(pos as int, pos + 8);
        proof {
            lemma_be_bytes_of_value(here);
            reveal_with_fuel(be_value, 9);
            let s7 = here.drop_last();
            let s6 = s7.drop_last();
            let s5 = s6.drop_last();
            let s4 = s5.drop_last();
            let s3 = s4.drop_last();
            let s2 = s3.drop_last();
            let s1 = s2.drop_last();
            let s0 = s1.drop_last();
            assert(s0.len() == 0);
            assert(be_value(s1) <= 0xff);
            assert(be_value(s2) <= 0xffff);
            assert(be_value(s3) <= 0xff_ffff);
            assert(be_value(s4) <= 0xffff_ffff);
            assert(be_value(s5) <= 0xff_ffff_ffff);
            assert(be_value(s6) <= 0xffff_ffff_ffff);
            assert(be_value(s7) <= 0xff_ffff_ffff_ffff);
            assert(be_value(here) <= 0xffff_ffff_ffff_ffff);
        }
        let ghost id: u64 = be_value(here) as u64;
        let (value, next) = fixed_decode(data, pos, Ghost(id));
        proof {
            lemma_id_bytes_len(value, compressed);
        }
        Some((value, next))
    }
}

/// Reads the id that starts at `pos` in a record, and says where the next one
/// starts.
pub fn decode_id(data: &[u8], pos: usize, compressed: bool) -> (r: (u64, usize))
    requires
        pos < data.len(),
        is_record(data@.skip(pos as int), compressed),
    ensures
        record_ids(data@.skip(pos as int), compressed).len() > 0,
        r.0 == record_ids(data@.skip(pos as int), compressed)[0],
        r.1 == pos + id_bytes(r.0, compressed).len(),
        pos < r.1 <= data.len(),
        is_record(data@.skip(r.1 as int), compressed),
        record_ids(data@.skip(r.1 as int), compressed) == record_ids(
            data@.skip(pos as int),
            compressed,
        ).drop_first(),
{
    let ghost here = data@.skip(pos as int);
    let ghost first = record_ids(here, compressed)[0];
    let ghost width = id_bytes(first, compressed).len();
    let ghost rest = encode_ids(record_ids(here, compressed).drop_first(), compressed);
    proof {
        lemma_record_front(here, compressed);
        assert(here.len() == width + rest.len());
        assert(data@.subrange(pos as int, pos + width) == here.subrange(0, width as int));
        assert(here.subrange(0, width as int) == id_bytes(first, compressed));
        assert(id_at(data@, pos as int, first, compressed));
    }
    let found = read_id(data, pos, compressed);
    let (id, next) = found.unwrap();
    proof {
        let wide = id_bytes(id, compressed).len();
        assert(data@.subrange(pos as int, next as int) == here.subrange(0, wide as int));
        assert(here == id_bytes(id, compressed) + here.skip(wide as int));
        lemma_id_bytes_prefix_free(first, rest, id, here.skip(wide as int), compressed);
        assert(data@.skip(next as int) == here.skip(wide as int));
    }
    (id, next)
}

/// Reads all the ids of a record, in stored order.
pub fn decode_record(data: &[u8], compressed: bool) -> (ids: Vec<u64>)
    requires
        is_record(data@, compressed),
    ensures
        ids@ == record_ids(data@, compressed),
{
    let mut ids: Vec<u64> = Vec::new();
    let mut pos: usize = 0;
    proof {
        assert(data@.skip(0) == data@);
    }
    while pos < data.len()
        invariant
            pos <= data.len(),
            is_record(data@.skip(pos as int), compressed),
            ids@ + record_ids(data@.skip(pos as int), compressed) == record_ids(data@, compressed),
        decreases data.len() - pos,
    {
        let ghost before = record_ids(data@.skip(pos as int), compressed);
        let (id, next) = decode_id(data, pos, compressed);
        proof {
            assert(before == seq![id] + before.drop_first());
            assert(ids@.push(id) + before.drop_first() == ids@ + before);
        }
        ids.push(id);
        pos = next;
    }
    proof {
        assert(data@.skip(pos as int) == Seq::<u8>::empty());
        lemma_record_empty(compressed);
        assert(ids@ + Seq::<u64>::empty() == ids@);
    }
    ids
}

/// Whether `data` is a record: the encodings of some storage ids, one after
/// the other, and nothing else.
pub fn check_record(data: &[u8], compressed: bool) -> (ok: bool)
    ensures
        ok == is_record(data@, compressed),
{
    let mut pos: usize = 0;
    proof {
        lemma_record_empty(compressed);
        assert(data@.subrange(0, 0) == Seq::<u8>::empty());
        assert(data@.skip(0) == data@);
    }
    while pos < data.len()
        invariant
            pos <= data.len(),
            is_record(data@.subrange(0, pos as int), compressed),
            is_record(data@, compressed) ==> is_record(data@.skip(pos as int), compressed),
        decreases data.len() - pos,
    {
        let ghost here = data@.skip(pos as int);
        match read_id(data, pos, compressed) {
            Some((id, next)) => {
                proof {
                    let width = id_bytes(id, compressed).len();
                    assert(data@.subrange(pos as int, next as int) == here.subrange(
                        0,
                        width as int,
                    ));
                    assert(here == id_bytes(id, compressed) + here.skip(width as int));
                    assert(here.skip(width as int) == data@.skip(next as int));
                    lemma_record_of(seq![id], compressed);
                    lemma_encode_ids_push(Seq::<u64>::empty(), id, compressed);
                    assert(Seq::<u64>::empty().push(id) == seq![id]);
                    assert(Seq::<u8>::empty() + id_bytes(id, compressed) == id_bytes(
                        id,
                        compressed,
                    ));
                    lemma_record_concat(
                        data@.subrange(0, pos as int),
                        id_bytes(id, compressed),
                        compressed,
                    );
                    assert(data@.subrange(0, pos as int) + id_bytes(id, compressed)
                        == data@.subrange(0, next as int));
                    if is_record(data@, compressed) {
                        lemma_record_front(here, compressed);
                        let first = record_ids(here, compressed)[0];
                        lemma_id_bytes_prefix_free(
                            first,
                            encode_ids(record_ids(here, compressed).drop_first(), compressed),
                            id,
                            here.skip(width as int),
                            compressed,
                        );
                    }
                }
                pos = next;
            },
            None => {
                proof {
                    if is_record(data@, compressed) {
                        lemma_record_front(here, compressed);
                        let first = record_ids(here, compressed)[0];
                        let width = id_bytes(first, compressed).len();
                        let rest = encode_ids(
                            record_ids(here, compressed).drop_first(),
                            compressed,
                        );
                        assert(here.len() == width + rest.len());
                        assert(data@.subrange(pos as int, pos + width) == here.subrange(
                            0,
                            width as int,
                        ));
                        assert(here.subrange(0, width as int) == id_bytes(first, compressed));
                        assert(id_at(data@, pos as int, first, compressed));
                    }
                }
                return false;
            },
        }
    }
    proof {
        assert(data@.subrange(0, pos as int) == data@);
    }
    true
}

} // verus!
