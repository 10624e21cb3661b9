//! The laws this library promises, proved against the wire model: the name
//! encode–decode round trip, the exact behaviour of compression-pointer
//! chains at the jump limit, and the big-endian integer round trips.

use vstd::prelude::*;

use crate::name_wire::{
    be16, be32, byte32, enc_bytes, first_dot, hi16, is_pointer_byte, join2, lo16, lower_bytes,
    name_ok, ptr_target, read_name, read_name_rec, strict_name, written, NameRead, NameStatus,
    BUF_SIZE, DOT,
};

verus! {

/// `first_dot` never points past the end, nothing before it is a dot, and
/// when it lands inside the sequence it lands on a dot.
pub proof fn lemma_first_dot_le(s: Seq<u8>)
    ensures
        first_dot(s) <= s.len(),
        first_dot(s) < s.len() ==> s[first_dot(s) as int] == DOT,
        forall|k: int| 0 <= k < first_dot(s) ==> s[k] != DOT,
    decreases s.len(),
{
    if s.len() == 0 || s[0] == DOT {
    } else {
        lemma_first_dot_le(s.skip(1));
        assert forall|k: int| 0 <= k < first_dot(s) implies s[k] != DOT by {
            if k > 0 {
                assert(s.skip(1)[k - 1] == s[k]);
            }
        }
    }
}

/// A name whose labels all have 1 to 63 bytes encodes completely.
pub proof fn lemma_strict_name_ok(name: Seq<u8>)
    requires
        strict_name(name),
    ensures
        name_ok(name),
    decreases name.len(),
{
    let i = first_dot(name);
    if i < name.len() {
        lemma_strict_name_ok(name.subrange(i + 1 as int, name.len() as int));
    }
}

/// A complete encoding is exactly two bytes longer than the textual name:
/// one length byte per label (one more label than there are dots) and the
/// terminator, against the dots it replaces.
pub proof fn lemma_enc_len(name: Seq<u8>)
    requires
        name_ok(name),
    ensures
        enc_bytes(name).len() == name.len() + 2,
    decreases name.len(),
{
    lemma_first_dot_le(name);
    let i = first_dot(name);
    if i < name.len() {
        lemma_enc_len(name.subrange(i + 1 as int, name.len() as int));
    }
}

/// Splitting the data of one overwrite is the same as two overwrites
/// end to end.
pub proof fn lemma_written_append(buf: Seq<u8>, pos: int, d1: Seq<u8>, d2: Seq<u8>)
    ensures
        written(buf, pos, d1 + d2) == written(written(buf, pos, d1), pos + d1.len(), d2),
{
    assert(written(buf, pos, d1 + d2) =~= written(written(buf, pos, d1), pos + d1.len(), d2));
}

/// ASCII lowercasing distributes over concatenation.
pub proof fn lemma_lower_append(a: Seq<u8>, b: Seq<u8>)
    ensures
        lower_bytes(a + b) == lower_bytes(a) + lower_bytes(b),
{
    assert(lower_bytes(a + b) =~= lower_bytes(a) + lower_bytes(b));
}

/// The encode–decode round trip for domain names. For any name whose labels
/// all have 1 to 63 bytes, writing its encoding into a buffer and decoding
/// at the same starting offset succeeds without following any pointer,
/// yields exactly the lowercased name, and ends just past the terminator —
/// the starting offset plus the encoded length.
pub proof fn lemma_name_round_trip(buf: Seq<u8>, start: int, name: Seq<u8>)
    requires
        buf.len() == BUF_SIZE,
        strict_name(name),
        0 <= start,
        start + enc_bytes(name).len() <= BUF_SIZE,
    ensures
        name_ok(name),
        ({
            let nr = read_name(written(buf, start, enc_bytes(name)), start);
            &&& nr.status is Done
            &&& nr.text == lower_bytes(name)
            &&& nr.end == start + enc_bytes(name).len()
            &&& nr.fp is None
        }),
    decreases name.len(),
{
    lemma_strict_name_ok(name);
    lemma_first_dot_le(name);
    let i = first_dot(name) as int;
    let e = enc_bytes(name);
    let b = written(buf, start, e);
    if i == name.len() {
        assert(e == seq![i as u8] + name + seq![0u8]);
        assert(b[start] == i as u8);
        assert(b.subrange(start + 1, start + 1 + i) =~= name);
        assert(b[start + 1 + i] == 0u8);
        let r = read_name_rec(b, start + 1 + i, 0);
        assert(r == NameRead {
            status: NameStatus::Done,
            text: Seq::<u8>::empty(),
            end: start + i + 2,
            fp: None::<int>,
        });
        assert(join2(lower_bytes(name), Seq::<u8>::empty()) == lower_bytes(name));
    } else {
        let label = name.subrange(0, i);
        let rest = name.subrange(i + 1, name.len() as int);
        assert(name_ok(rest));
        lemma_enc_len(rest);
        assert(e == seq![i as u8] + label + enc_bytes(rest));
        lemma_written_append(buf, start, seq![i as u8] + label, enc_bytes(rest));
        assert((seq![i as u8] + label) + enc_bytes(rest) =~= e);
        lemma_name_round_trip(written(buf, start, seq![i as u8] + label), start + 1 + i, rest);
        assert(b[start] == i as u8);
        assert(b.subrange(start + 1, start + 1 + i) =~= label);
        let r = read_name_rec(b, start + 1 + i, 0);
        assert(r.status is Done && r.text == lower_bytes(rest) && r.end == start + e.len()
            && r.fp is None);
        assert(name =~= label + seq![DOT] + rest);
        lemma_lower_append(label + seq![DOT], rest);
        lemma_lower_append(label, seq![DOT]);
        assert(lower_bytes(seq![DOT]) =~= seq![DOT]);
        assert(rest.len() > 0);
        assert(lower_bytes(rest).len() > 0);
        assert(join2(lower_bytes(label), lower_bytes(rest)) == lower_bytes(name));
    }
}

/// Down a chain of compression pointers the decoder's outcome is the
/// outcome at the end of the chain, with the first pointer recorded; one
/// jump is spent per link.
proof fn lemma_chain_step(buf: Seq<u8>, ps: Seq<int>, j: int)
    requires
        buf.len() == BUF_SIZE,
        0 <= j < ps.len(),
        forall|k: int|
            0 <= k < ps.len() - 1 ==> 0 <= #[trigger] ps[k] && ps[k] + 1 < BUF_SIZE
                && is_pointer_byte(buf[ps[k]]) && ptr_target(buf, ps[k]) == ps[k + 1],
        j + (ps.len() - 1 - j) <= 6,
    ensures
        ({
            let tail = read_name_rec(buf, ps[ps.len() - 1], ps.len() - 1);
            let whole = read_name_rec(buf, ps[j], j);
            &&& whole.status == tail.status
            &&& whole.text == tail.text
            &&& whole.end == tail.end
            &&& whole.fp == (if j < ps.len() - 1 {
                Some(ps[j])
            } else {
                tail.fp
            })
        }),
    decreases ps.len() - j,
{
    if j < ps.len() - 1 {
        lemma_chain_step(buf, ps, j + 1);
    }
}

/// A chain of exactly five compression-pointer jumps that lands on a
/// terminator decodes successfully: the name is empty, no further text is
/// gathered, and the first pointer of the chain is where the cursor comes
/// to rest, two bytes past it.
pub proof fn lemma_five_jumps_succeed(buf: Seq<u8>, ps: Seq<int>)
    requires
        buf.len() == BUF_SIZE,
        ps.len() == 6,
        forall|k: int|
            0 <= k < 5 ==> 0 <= #[trigger] ps[k] && ps[k] + 1 < BUF_SIZE
                && is_pointer_byte(buf[ps[k]]) && ptr_target(buf, ps[k]) == ps[k + 1],
        0 <= ps[5] < BUF_SIZE,
        buf[ps[5]] == 0u8,
    ensures
        read_name(buf, ps[0]) == (NameRead {
            status: NameStatus::Done,
            text: Seq::<u8>::empty(),
            end: ps[5] + 1,
            fp: Some(ps[0]),
        }),
{
    lemma_chain_step(buf, ps, 0);
}

/// A chain of six compression-pointer jumps — and so any longer chain,
/// which must pass through its first six — fails with the jump limit,
/// whatever lies at the end: no text is gathered, and the cursor rests two
/// bytes past the first pointer.
pub proof fn lemma_six_jumps_fail(buf: Seq<u8>, ps: Seq<int>)
    requires
        buf.len() == BUF_SIZE,
        ps.len() == 7,
        forall|k: int|
            0 <= k < 6 ==> 0 <= #[trigger] ps[k] && ps[k] + 1 < BUF_SIZE
                && is_pointer_byte(buf[ps[k]]) && ptr_target(buf, ps[k]) == ps[k + 1],
    ensures
        read_name(buf, ps[0]) == (NameRead {
            status: NameStatus::JumpLimit,
            text: Seq::<u8>::empty(),
            end: 0,
            fp: Some(ps[0]),
        }),
{
    lemma_chain_step(buf, ps, 0);
}

/// The big-endian byte split of a 16-bit value reassembles to the value,
/// and the reassembly of two bytes splits back to them.
pub proof fn lemma_u16_round_trip(v: u16, hi: u8, lo: u8)
    ensures
        be16(hi16(v), lo16(v)) == v,
        hi16(be16(hi, lo)) == hi,
        lo16(be16(hi, lo)) == lo,
{
}

/// The big-endian byte split of a 32-bit value reassembles to the value,
/// and the reassembly of four bytes splits back to them.
#[verifier::rlimit(50)]
pub proof fn lemma_u32_round_trip(v: u32, b0: u8, b1: u8, b2: u8, b3: u8)
    ensures
        be32(byte32(v, 0), byte32(v, 1), byte32(v, 2), byte32(v, 3)) == v,
        byte32(be32(b0, b1, b2, b3), 0) == b0,
        byte32(be32(b0, b1, b2, b3), 1) == b1,
        byte32(be32(b0, b1, b2, b3), 2) == b2,
        byte32(be32(b0, b1, b2, b3), 3) == b3,
{
}

} // verus!
