//! Mathematical model of the DNS wire format for domain names: what the
//! encoder emits for a dot-separated name, and what the decoder yields for a
//! buffer region, including compression-pointer chains and the exact error
//! on malformed input.

use vstd::prelude::*;

verus! {

/// Capacity of a packet buffer: the conventional maximum UDP DNS payload.
pub const BUF_SIZE: usize = 512;

/// Longest permitted label: the wire length field has only 6 bits.
pub const MAX_LABEL_LEN: usize = 63;

/// Most compression-pointer jumps a single name decode may follow.
pub const MAX_JUMPS: u8 = 5;

/// ASCII byte value of `'.'`, the label separator in a textual name.
pub const DOT: u8 = 46;

/// ASCII lowercasing of one byte; bytes outside `'A'..='Z'` are unchanged.
pub open spec fn lower_byte(b: u8) -> u8 {
    if 65 <= b && b <= 90 {
        (b + 32) as u8
    } else {
        b
    }
}

/// ASCII lowercasing of a byte sequence.
pub open spec fn lower_bytes(s: Seq<u8>) -> Seq<u8> {
    s.map_values(|b: u8| lower_byte(b))
}

/// Index of the first `'.'` in `s`, or `s.len()` if there is none.
pub open spec fn first_dot(s: Seq<u8>) -> nat
    decreases s.len(),
{
    if s.len() == 0 {
        0
    } else if s[0] == DOT {
        0
    } else {
        1 + first_dot(s.skip(1))
    }
}

/// A position with no dot before it and a dot (or the end) at it is where
/// `first_dot` points.
pub proof fn lemma_first_dot_is(s: Seq<u8>, m: nat)
    requires
        m <= s.len(),
        forall|k: int| 0 <= k < m ==> s[k] != DOT,
        m < s.len() ==> s[m as int] == DOT,
    ensures
        first_dot(s) == m,
    decreases s.len(),
{
    if s.len() == 0 || s[0] == DOT {
    } else {
        lemma_first_dot_is(s.skip(1), (m - 1) as nat);
    }
}

/// What the name encoder produces: either the complete wire bytes
/// (each label length-prefixed, then a zero terminator), or the bytes
/// emitted for the labels before the first over-long one.
#[verifier::ext_equal]
pub enum EncPlan {
    Complete { bytes: Seq<u8> },
    LongLabel { prefix: Seq<u8> },
}

/// The encoder's output for `name`, label by label.
pub open spec fn enc_plan(name: Seq<u8>) -> EncPlan
    decreases name.len(),
{
    let i = first_dot(name);
    if i > MAX_LABEL_LEN {
        EncPlan::LongLabel { prefix: Seq::empty() }
    } else if i >= name.len() {
        EncPlan::Complete { bytes: seq![i as u8] + name + seq![0u8] }
    } else {
        let label = name.subrange(0, i as int);
        match enc_plan(name.subrange(i + 1 as int, name.len() as int)) {
            EncPlan::Complete { bytes } => EncPlan::Complete {
                bytes: seq![i as u8] + label + bytes,
            },
            EncPlan::LongLabel { prefix } => EncPlan::LongLabel {
                prefix: seq![i as u8] + label + prefix,
            },
        }
    }
}

/// Whether every label of `name` fits in the 6-bit wire length field.
pub open spec fn name_ok(name: Seq<u8>) -> bool {
    enc_plan(name) is Complete
}

/// The bytes the encoder attempts to write for `name`: the full encoding
/// when every label fits, else the prefix emitted before the long label.
pub open spec fn plan_bytes(p: EncPlan) -> Seq<u8> {
    match p {
        EncPlan::Complete { bytes } => bytes,
        EncPlan::LongLabel { prefix } => prefix,
    }
}

/// The complete wire encoding of `name`; meaningful when `name_ok(name)`.
pub open spec fn enc_bytes(name: Seq<u8>) -> Seq<u8> {
    plan_bytes(enc_plan(name))
}

/// Whether every label of `name` has between 1 and 63 bytes.
pub open spec fn strict_name(name: Seq<u8>) -> bool
    decreases name.len(),
{
    let i = first_dot(name);
    if name.len() == 0 {
        false
    } else if i >= name.len() {
        1 <= i && i <= MAX_LABEL_LEN
    } else {
        1 <= i && i <= MAX_LABEL_LEN && strict_name(name.subrange(i + 1 as int, name.len() as int))
    }
}

/// `buf` with `data` overwritten starting at `pos`; positions at or past
/// `buf.len()` are silently dropped, as sequential checked writes would
/// stop there.
pub open spec fn written(buf: Seq<u8>, pos: int, data: Seq<u8>) -> Seq<u8> {
    Seq::new(buf.len(), |i: int| if pos <= i && i < pos + data.len() { data[i - pos] } else { buf[i] })
}

/// Writing nothing changes nothing.
pub proof fn lemma_written_empty(buf: Seq<u8>, pos: int)
    ensures
        written(buf, pos, Seq::empty()) == buf,
{
    assert(written(buf, pos, Seq::empty()) =~= buf);
}

/// One further in-bounds byte extends the overwritten range by one.
pub proof fn lemma_written_push(buf: Seq<u8>, pos: int, data: Seq<u8>, at: int, v: u8)
    requires
        at == pos + data.len(),
        0 <= at < buf.len(),
    ensures
        written(buf, pos, data).update(at, v) == written(buf, pos, data.push(v)),
{
    assert(written(buf, pos, data).update(at, v) =~= written(buf, pos, data.push(v)));
}

/// Once the overwritten range reaches the end of the buffer, further data
/// lands nowhere.
pub proof fn lemma_written_saturated(buf: Seq<u8>, pos: int, data: Seq<u8>, more: Seq<u8>)
    requires
        data.is_prefix_of(more),
        pos + data.len() >= buf.len(),
    ensures
        written(buf, pos, data) == written(buf, pos, more),
{
    assert(written(buf, pos, data) =~= written(buf, pos, more));
}

/// The overwrite of two bytes, case by case over how much room the cursor
/// has below capacity.
pub proof fn lemma_written_2(buf: Seq<u8>, p: int, a: u8, b: u8)
    requires
        buf.len() == BUF_SIZE,
        0 <= p,
    ensures
        p + 2 <= BUF_SIZE ==> written(buf, p, seq![a, b]) == buf.update(p, a).update(p + 1, b),
        p >= BUF_SIZE ==> written(buf, p, seq![a, b]) == buf,
        p == BUF_SIZE - 1 ==> written(buf, p, seq![a, b]) == buf.update(p, a),
{
    if p + 2 <= BUF_SIZE {
        assert(written(buf, p, seq![a, b]) =~= buf.update(p, a).update(p + 1, b));
    }
    if p >= BUF_SIZE {
        assert(written(buf, p, seq![a, b]) =~= buf);
    }
    if p == BUF_SIZE - 1 {
        assert(written(buf, p, seq![a, b]) =~= buf.update(p, a));
    }
}

/// The overwrite of four bytes, case by case over how much room the cursor
/// has below capacity.
pub proof fn lemma_written_4(buf: Seq<u8>, p: int, a: u8, b: u8, c: u8, d: u8)
    requires
        buf.len() == BUF_SIZE,
        0 <= p,
    ensures
        p + 4 <= BUF_SIZE ==> written(buf, p, seq![a, b, c, d]) == buf.update(p, a).update(
            p + 1,
            b,
        ).update(p + 2, c).update(p + 3, d),
        p >= BUF_SIZE ==> written(buf, p, seq![a, b, c, d]) == buf,
        p == BUF_SIZE - 1 ==> written(buf, p, seq![a, b, c, d]) == buf.update(p, a),
        p == BUF_SIZE - 2 ==> written(buf, p, seq![a, b, c, d]) == buf.update(p, a).update(
            p + 1,
            b,
        ),
        p == BUF_SIZE - 3 ==> written(buf, p, seq![a, b, c, d]) == buf.update(p, a).update(
            p + 1,
            b,
        ).update(p + 2, c),
{
    if p + 4 <= BUF_SIZE {
        assert(written(buf, p, seq![a, b, c, d]) =~= buf.update(p, a).update(p + 1, b).update(
            p + 2,
            c,
        ).update(p + 3, d));
    }
    if p >= BUF_SIZE {
        assert(written(buf, p, seq![a, b, c, d]) =~= buf);
    }
    if p == BUF_SIZE - 1 {
        assert(written(buf, p, seq![a, b, c, d]) =~= buf.update(p, a));
    }
    if p == BUF_SIZE - 2 {
        assert(written(buf, p, seq![a, b, c, d]) =~= buf.update(p, a).update(p + 1, b));
    }
    if p == BUF_SIZE - 3 {
        assert(written(buf, p, seq![a, b, c, d]) =~= buf.update(p, a).update(p + 1, b).update(
            p + 2,
            c,
        ));
    }
}

/// How many of `n` bytes sequential checked writes starting at `pos`
/// actually land before the cursor reaches capacity.
pub open spec fn fit_len(pos: int, n: int) -> int {
    if pos >= BUF_SIZE {
        0
    } else if pos + n <= BUF_SIZE {
        n
    } else {
        BUF_SIZE - pos
    }
}

/// Big-endian 16-bit value of two bytes.
pub open spec fn be16(hi: u8, lo: u8) -> u16 {
    ((hi as int) * 0x100 + (lo as int)) as u16
}

/// Big-endian 32-bit value of four bytes.
pub open spec fn be32(b0: u8, b1: u8, b2: u8, b3: u8) -> u32 {
    ((b0 as int) * 0x1000000 + (b1 as int) * 0x10000 + (b2 as int) * 0x100 + (b3 as int)) as u32
}

/// High byte of a 16-bit value, written first on the wire.
pub open spec fn hi16(v: u16) -> u8 {
    (v / 0x100) as u8
}

/// Low byte of a 16-bit value, written second on the wire.
pub open spec fn lo16(v: u16) -> u8 {
    (v % 0x100) as u8
}

/// The two bytes of a 16-bit value in wire (big-endian) order.
pub open spec fn be16_bytes(v: u16) -> Seq<u8> {
    seq![hi16(v), lo16(v)]
}

/// Byte `k` (0 is most significant) of a 32-bit value in wire order.
pub open spec fn byte32(v: u32, k: int) -> u8 {
    if k == 0 {
        (v / 0x1000000) as u8
    } else if k == 1 {
        ((v / 0x10000) % 0x100) as u8
    } else if k == 2 {
        ((v / 0x100) % 0x100) as u8
    } else {
        (v % 0x100) as u8
    }
}

/// The four bytes of a 32-bit value in wire (big-endian) order.
pub open spec fn be32_bytes(v: u32) -> Seq<u8> {
    seq![byte32(v, 0), byte32(v, 1), byte32(v, 2), byte32(v, 3)]
}

/// Whether the length byte `b` marks a compression pointer (top two bits 11).
pub open spec fn is_pointer_byte(b: u8) -> bool {
    b >= 0xC0
}

/// Absolute offset a compression pointer at `pos` redirects to: the low
/// 6 bits of the length byte joined with the following byte as a 14-bit value.
pub open spec fn ptr_target(buf: Seq<u8>, pos: int) -> int {
    (buf[pos] - 0xC0) * 0x100 + buf[pos + 1]
}

/// How a name decode ended.
pub enum NameStatus {
    /// The terminating zero-length label was reached.
    Done,
    /// A checked access reached or passed capacity.
    OutOfBounds,
    /// More than the permitted number of pointer jumps were followed.
    JumpLimit,
}

/// Everything a name decode yields: its status, the lowercased dot-joined
/// labels gathered before it ended, the local position just past the
/// terminator (meaningful when `status is Done`), and the position of the
/// first compression pointer followed, if any.
#[verifier::ext_equal]
pub struct NameRead {
    pub status: NameStatus,
    pub text: Seq<u8>,
    pub end: int,
    pub fp: Option<int>,
}

/// Dot-joining of two already dot-joined fragments; empty fragments
/// contribute no separator.
pub open spec fn join2(a: Seq<u8>, b: Seq<u8>) -> Seq<u8> {
    if a.len() == 0 {
        b
    } else if b.len() == 0 {
        a
    } else {
        a + seq![DOT] + b
    }
}

/// Joining on the left of an already joined pair associates, as long as
/// the middle fragment is a real label.
pub proof fn lemma_join2_assoc(a: Seq<u8>, b: Seq<u8>, c: Seq<u8>)
    requires
        b.len() > 0,
    ensures
        join2(a, join2(b, c)) == join2(join2(a, b), c),
{
    if a.len() > 0 && c.len() > 0 {
        assert(a + seq![DOT] + (b + seq![DOT] + c) =~= (a + seq![DOT] + b) + seq![DOT] + c);
    }
}

/// A partial decode folded into a decode outcome: the labels gathered so
/// far are joined in front of the outcome's text, and the first pointer
/// already followed, if any, wins over a later one.
pub open spec fn combine(acc: Seq<u8>, fp0: Option<int>, o: NameRead) -> NameRead {
    NameRead {
        status: o.status,
        text: join2(acc, o.text),
        end: o.end,
        fp: if fp0 is Some {
            fp0
        } else {
            o.fp
        },
    }
}

/// Loop measure for the decoder: positions move forward between jumps,
/// so the remaining room below capacity shrinks.
pub open spec fn pos_measure(pos: int) -> int {
    if 0 <= pos && pos < BUF_SIZE {
        BUF_SIZE - pos
    } else {
        0
    }
}

/// The decoder's outcome when reading a name at `pos` with `jumps` pointer
/// jumps already taken. Mirrors one loop step per recursive call: a jump
/// budget check, then the length byte, then either a pointer jump, the
/// terminator, or a literal label.
pub open spec fn read_name_rec(buf: Seq<u8>, pos: int, jumps: int) -> NameRead
    decreases 6 - jumps, pos_measure(pos),
{
    if jumps > MAX_JUMPS {
        NameRead { status: NameStatus::JumpLimit, text: Seq::empty(), end: 0, fp: None }
    } else if !(0 <= pos && pos < BUF_SIZE) {
        NameRead { status: NameStatus::OutOfBounds, text: Seq::empty(), end: 0, fp: None }
    } else {
        let len = buf[pos];
        if is_pointer_byte(len) {
            if pos + 1 >= BUF_SIZE {
                NameRead { status: NameStatus::OutOfBounds, text: Seq::empty(), end: 0, fp: Some(pos) }
            } else {
                let r = read_name_rec(buf, ptr_target(buf, pos), jumps + 1);
                NameRead { status: r.status, text: r.text, end: r.end, fp: Some(pos) }
            }
        } else if len == 0 {
            NameRead { status: NameStatus::Done, text: Seq::empty(), end: pos + 1, fp: None }
        } else if pos + 1 + len >= BUF_SIZE {
            NameRead { status: NameStatus::OutOfBounds, text: Seq::empty(), end: 0, fp: None }
        } else {
            let label = lower_bytes(buf.subrange(pos + 1, pos + 1 + len));
            let r = read_name_rec(buf, pos + 1 + len, jumps);
            NameRead { status: r.status, text: join2(label, r.text), end: r.end, fp: r.fp }
        }
    }
}

/// The decoder's outcome for a name starting at `start`, with a fresh
/// jump budget.
pub open spec fn read_name(buf: Seq<u8>, start: int) -> NameRead {
    read_name_rec(buf, start, 0)
}

/// The buffer cursor after a name decode that began at `start` with the
/// cursor there: just past the first pointer if one was followed, just past
/// the terminator on a pointer-free success, and untouched on a failure
/// before any pointer.
pub open spec fn cursor_after_read(buf: Seq<u8>, start: int) -> int {
    let nr = read_name(buf, start);
    match nr.fp {
        Some(p) => p + 2,
        None => if nr.status is Done {
            nr.end
        } else {
            start
        },
    }
}

} // verus!
