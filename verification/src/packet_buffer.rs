//! A fixed-capacity byte buffer for decoding and encoding DNS messages
//! within a single 512-byte UDP datagram, including the label-compression
//! pointer scheme of the wire format.

use vstd::prelude::*;

use crate::errors::DnsError;
use crate::name_wire::{
    be16, be32, be16_bytes, be32_bytes, byte32, combine, cursor_after_read, enc_plan, fit_len,
    hi16, join2, lemma_first_dot_is, lemma_join2_assoc, lemma_written_2, lemma_written_4,
    lemma_written_empty, lemma_written_push, lemma_written_saturated, lo16, lower_byte,
    lower_bytes, plan_bytes, pos_measure, ptr_target, read_name, read_name_rec, written,
    NameRead, NameStatus, BUF_SIZE, DOT, MAX_JUMPS, MAX_LABEL_LEN,
};

verus! {

/// A fixed-capacity binary buffer with a cursor marking the next checked
/// read or write offset. One instance serves exactly one message: the
/// inbound path fills `buf` with a received datagram and drains it through
/// the checked readers; the outbound path fills it through the checked
/// writers and transmits `buf[0..pos]`.
pub struct PacketBuffer {
    pub buf: Vec<u8>,
    pub pos: usize,
}

impl PacketBuffer {
    /// Well-formedness: the backing storage always holds exactly the
    /// fixed capacity. The cursor itself is unconstrained; every checked
    /// access re-validates it.
    pub open spec fn wf(&self) -> bool {
        self.buf@.len() == BUF_SIZE
    }

    /// A fresh, zero-filled buffer with the cursor at the start.
    pub fn new() -> (r: Self)
        ensures
            r.wf(),
            r.pos == 0,
            forall|i: int| 0 <= i < BUF_SIZE ==> r.buf@[i] == 0u8,
    {
        let mut buf: Vec<u8> = Vec::new();
        while buf.len() < BUF_SIZE
            invariant
                buf@.len() <= BUF_SIZE,
                forall|i: int| 0 <= i < buf@.len() ==> buf@[i] == 0u8,
            decreases BUF_SIZE - buf@.len(),
        {
            buf.push(0);
        }
        PacketBuffer { buf, pos: 0 }
    }

    /// The current cursor offset.
    pub fn pos(&self) -> (r: usize)
        ensures
            r == self.pos,
    {
        self.pos
    }

    /// Moves the cursor forward unconditionally; the caller keeps the
    /// result meaningful before the next checked access.
    pub fn advance(&mut self, steps: usize) -> (r: Result<(), DnsError>)
        requires
            old(self).pos + steps <= usize::MAX,
        ensures
            final(self).buf@ == old(self).buf@,
            final(self).pos == old(self).pos + steps,
            r == Ok::<(), DnsError>(()),
    {
        self.pos += steps;
        Ok(())
    }

    /// Repositions the cursor unconditionally.
    pub fn seek(&mut self, pos: usize) -> (r: Result<(), DnsError>)
        ensures
            final(self).buf@ == old(self).buf@,
            final(self).pos == pos,
            r == Ok::<(), DnsError>(()),
    {
        self.pos = pos;
        Ok(())
    }

    /// Returns the byte at the cursor and advances it by one; fails with an
    /// out-of-bounds error when the cursor is at or past capacity, leaving
    /// the buffer untouched.
    pub fn read(&mut self) -> (r: Result<u8, DnsError>)
        requires
            old(self).wf(),
        ensures
            final(self).wf(),
            final(self).buf@ == old(self).buf@,
            old(self).pos < BUF_SIZE ==> r == Ok::<u8, DnsError>(old(self).buf@[old(self).pos as int])
                && final(self).pos == old(self).pos + 1,
            old(self).pos >= BUF_SIZE ==> r == Err::<u8, DnsError>(DnsError::IndexOutOfBound)
                && final(self).pos == old(self).pos,
    {
        if self.pos >= BUF_SIZE {
            return Err(DnsError::IndexOutOfBound);
        }
        let res = self.buf[self.pos];
        self.pos += 1;
        Ok(res)
    }

    /// Returns the byte at absolute offset `pos` without moving the cursor;
    /// fails with an out-of-bounds error at or past capacity.
    pub fn get(&self, pos: usize) -> (r: Result<u8, DnsError>)
        requires
            self.wf(),
        ensures
            pos < BUF_SIZE ==> r == Ok::<u8, DnsError>(self.buf@[pos as int]),
            pos >= BUF_SIZE ==> r == Err::<u8, DnsError>(DnsError::IndexOutOfBound),
    {
        if pos >= BUF_SIZE {
            return Err(DnsError::IndexOutOfBound);
        }
        Ok(self.buf[pos])
    }

    /// Returns a read-only view of `len` bytes starting at `start`; fails
    /// with an out-of-bounds error when the end would reach or pass
    /// capacity. A range ending exactly at capacity is rejected as well:
    /// the check is deliberately strict, so the top byte of the buffer is
    /// never part of a range.
    pub fn get_range(&self, start: usize, len: usize) -> (r: Result<&[u8], DnsError>)
        requires
            self.wf(),
        ensures
            start + len < BUF_SIZE ==> (r matches Ok(s)
                && s@ == self.buf@.subrange(start as int, start + len)),
            start + len >= BUF_SIZE ==> r == Err::<&[u8], DnsError>(DnsError::IndexOutOfBound),
    {
        if len >= BUF_SIZE || start >= BUF_SIZE - len {
            return Err(DnsError::IndexOutOfBound);
        }
        Ok(vstd::slice::slice_subrange(self.buf.as_slice(), start, start + len))
    }

    /// Reads a big-endian 16-bit value via two sequential checked byte
    /// reads; on a truncated buffer the second read may fail after the
    /// first advanced the cursor to capacity.
    pub fn read_u16(&mut self) -> (r: Result<u16, DnsError>)
        requires
            old(self).wf(),
        ensures
            final(self).wf(),
            final(self).buf@ == old(self).buf@,
            old(self).pos + 2 <= BUF_SIZE ==> r == Ok::<u16, DnsError>(
                be16(old(self).buf@[old(self).pos as int], old(self).buf@[old(self).pos + 1]),
            ) && final(self).pos == old(self).pos + 2,
            old(self).pos + 2 > BUF_SIZE ==> r == Err::<u16, DnsError>(DnsError::IndexOutOfBound)
                && final(self).pos == (if old(self).pos >= BUF_SIZE {
                old(self).pos as int
            } else {
                BUF_SIZE as int
            }),
    {
        let hi = match self.read() {
            Ok(b) => b,
            Err(e) => return Err(e),
        };
        let lo = match self.read() {
            Ok(b) => b,
            Err(e) => return Err(e),
        };
        Ok((hi as u16) * 0x100 + (lo as u16))
    }

    /// Reads a big-endian 32-bit value via four sequential checked byte
    /// reads; on a truncated buffer a later read may fail after earlier
    /// ones advanced the cursor to capacity.
    pub fn read_u32(&mut self) -> (r: Result<u32, DnsError>)
        requires
            old(self).wf(),
        ensures
            final(self).wf(),
            final(self).buf@ == old(self).buf@,
            old(self).pos + 4 <= BUF_SIZE ==> r == Ok::<u32, DnsError>(
                be32(
                    old(self).buf@[old(self).pos as int],
                    old(self).buf@[old(self).pos + 1],
                    old(self).buf@[old(self).pos + 2],
                    old(self).buf@[old(self).pos + 3],
                ),
            ) && final(self).pos == old(self).pos + 4,
            old(self).pos + 4 > BUF_SIZE ==> r == Err::<u32, DnsError>(DnsError::IndexOutOfBound)
                && final(self).pos == (if old(self).pos >= BUF_SIZE {
                old(self).pos as int
            } else {
                BUF_SIZE as int
            }),
    {
        let b0 = match self.read() {
            Ok(b) => b,
            Err(e) => return Err(e),
        };
        let b1 = match self.read() {
            Ok(b) => b,
            Err(e) => return Err(e),
        };
        let b2 = match self.read() {
            Ok(b) => b,
            Err(e) => return Err(e),
        };
        let b3 = match self.read() {
            Ok(b) => b,
            Err(e) => return Err(e),
        };
        Ok((b0 as u32) * 0x1000000 + (b1 as u32) * 0x10000 + (b2 as u32) * 0x100 + (b3 as u32))
    }

    /// Writes `val` at the cursor and advances it; fails with an
    /// out-of-bounds error when the cursor is at or past capacity, leaving
    /// the buffer untouched.
    pub fn write(&mut self, val: u8) -> (r: Result<(), DnsError>)
        requires
            old(self).wf(),
        ensures
            final(self).wf(),
            old(self).pos < BUF_SIZE ==> r == Ok::<(), DnsError>(())
                && final(self).buf@ == old(self).buf@.update(old(self).pos as int, val)
                && final(self).pos == old(self).pos + 1,
            old(self).pos >= BUF_SIZE ==> r == Err::<(), DnsError>(DnsError::IndexOutOfBound)
                && final(self).buf@ == old(self).buf@
                && final(self).pos == old(self).pos,
    {
        if self.pos >= BUF_SIZE {
            return Err(DnsError::IndexOutOfBound);
        }
        self.buf[self.pos] = val;
        self.pos += 1;
        Ok(())
    }

    /// Writes the 16-bit value `val` big-endian at the cursor via two
    /// sequential checked byte writes. Whatever fits below capacity is
    /// written; a write past capacity fails with an out-of-bounds error,
    /// leaving any earlier byte in place.
    pub fn write_u16(&mut self, val: u16) -> (r: Result<(), DnsError>)
        requires
            old(self).wf(),
        ensures
            final(self).wf(),
            final(self).buf@ == written(old(self).buf@, old(self).pos as int, be16_bytes(val)),
            final(self).pos == old(self).pos + fit_len(old(self).pos as int, 2),
            r == (if old(self).pos + 2 <= BUF_SIZE {
                Ok::<(), DnsError>(())
            } else {
                Err::<(), DnsError>(DnsError::IndexOutOfBound)
            }),
    {
        proof {
            lemma_written_2(old(self).buf@, old(self).pos as int, hi16(val), lo16(val));
        }
        match self.write((val / 0x100) as u8) {
            Ok(u) => u,
            Err(e) => return Err(e),
        }
        self.write((val % 0x100) as u8)
    }

    /// Writes the 32-bit value `val` big-endian at the cursor via four
    /// sequential checked byte writes. Whatever fits below capacity is
    /// written; a write past capacity fails with an out-of-bounds error,
    /// leaving any earlier bytes in place.
    pub fn write_u32(&mut self, val: u32) -> (r: Result<(), DnsError>)
        requires
            old(self).wf(),
        ensures
            final(self).wf(),
            final(self).buf@ == written(old(self).buf@, old(self).pos as int, be32_bytes(val)),
            final(self).pos == old(self).pos + fit_len(old(self).pos as int, 4),
            r == (if old(self).pos + 4 <= BUF_SIZE {
                Ok::<(), DnsError>(())
            } else {
                Err::<(), DnsError>(DnsError::IndexOutOfBound)
            }),
    {
        proof {
            lemma_written_4(
                old(self).buf@,
                old(self).pos as int,
                byte32(val, 0),
                byte32(val, 1),
                byte32(val, 2),
                byte32(val, 3),
            );
        }
        match self.write((val / 0x1000000) as u8) {
            Ok(u) => u,
            Err(e) => return Err(e),
        }
        match self.write(((val / 0x10000) % 0x100) as u8) {
            Ok(u) => u,
            Err(e) => return Err(e),
        }
        match self.write(((val / 0x100) % 0x100) as u8) {
            Ok(u) => u,
            Err(e) => return Err(e),
        }
        self.write((val % 0x100) as u8)
    }

    /// Decodes a possibly-compressed domain name starting at the cursor,
    /// appending its lowercased, dot-joined labels to `outstr`. Compression
    /// pointers are followed, at most five of them; a longer chain fails
    /// with a jump-limit error, and any access at or past capacity fails
    /// with an out-of-bounds error. On success the cursor rests on the byte
    /// after the encoded name: after the first pointer if one was followed,
    /// else after the terminator. On a failure after a pointer the cursor
    /// keeps that pointer-relative resting place; on an earlier failure it
    /// is untouched. Labels decoded before a failure stay appended.
    pub fn read_qname(&mut self, outstr: &mut Vec<u8>) -> (r: Result<(), DnsError>)
        requires
            old(self).wf(),
        ensures
            final(self).wf(),
            final(self).buf@ == old(self).buf@,
            ({
                let nr = read_name(old(self).buf@, old(self).pos as int);
                &&& final(outstr)@ == old(outstr)@ + nr.text
                &&& final(self).pos as int == cursor_after_read(
                    old(self).buf@,
                    old(self).pos as int,
                )
                &&& (match nr.status {
                    NameStatus::Done => r == Ok::<(), DnsError>(()),
                    NameStatus::OutOfBounds => r == Err::<(), DnsError>(DnsError::IndexOutOfBound),
                    NameStatus::JumpLimit => r == Err::<(), DnsError>(
                        DnsError::JumpsLimit(MAX_JUMPS),
                    ),
                })
            }),
    {
        let ghost buf0 = self.buf@;
        let ghost start = self.pos as int;
        let ghost out0 = outstr@;
        let mut pos: usize = self.pos;
        let mut jumped = false;
        let mut first = true;
        let mut num_jumps: u8 = 0;
        let ghost mut acc = Seq::<u8>::empty();
        let ghost mut fp0 = Option::<int>::None;
        proof {
            assert(out0 + acc =~= out0);
            assert(combine(acc, fp0, read_name_rec(buf0, pos as int, 0)) =~= read_name(
                buf0,
                start,
            ));
        }
        loop
            invariant
                self.wf(),
                self.buf@ == buf0,
                buf0 == old(self).buf@,
                start == old(self).pos as int,
                out0 == old(outstr)@,
                outstr@ == out0 + acc,
                num_jumps <= 6,
                first <==> acc.len() == 0,
                jumped <==> fp0 is Some,
                (match fp0 {
                    Some(p) => self.pos as int == p + 2,
                    None => self.pos as int == start,
                }),
                combine(acc, fp0, read_name_rec(buf0, pos as int, num_jumps as int)) == read_name(
                    buf0,
                    start,
                ),
            decreases 6 - num_jumps as int, pos_measure(pos as int),
        {
            let ghost before = read_name_rec(buf0, pos as int, num_jumps as int);
            if num_jumps > MAX_JUMPS {
                return Err(DnsError::JumpsLimit(MAX_JUMPS));
            }
            let len = match self.get(pos) {
                Ok(b) => b,
                Err(e) => return Err(e),
            };
            if len >= 0xC0 {
                if !jumped {
                    match self.seek(pos + 2) {
                        Ok(u) => u,
                        Err(e) => return Err(e),
                    }
                    jumped = true;
                    proof {
                        fp0 = Some(pos as int);
                    }
                }
                let b2 = match self.get(pos + 1) {
                    Ok(b) => b,
                    Err(e) => return Err(e),
                };
                proof {
                    assert(before == NameRead {
                        status: read_name_rec(buf0, ptr_target(buf0, pos as int), num_jumps + 1).status,
                        text: read_name_rec(buf0, ptr_target(buf0, pos as int), num_jumps + 1).text,
                        end: read_name_rec(buf0, ptr_target(buf0, pos as int), num_jumps + 1).end,
                        fp: Some(pos as int),
                    });
                }
                pos = ((len - 0xC0) as usize) * 0x100 + (b2 as usize);
                num_jumps = num_jumps + 1;
                proof {
                    assert(combine(acc, fp0, read_name_rec(buf0, pos as int, num_jumps as int))
                        == read_name(buf0, start));
                }
            } else if len == 0 {
                if !jumped {
                    match self.seek(pos + 1) {
                        Ok(u) => u,
                        Err(e) => return Err(e),
                    }
                }
                return Ok(());
            } else {
                let label_len = len as usize;
                let label_slice = match self.get_range(pos + 1, label_len) {
                    Ok(s) => s,
                    Err(e) => return Err(e),
                };
                let ghost label_view = buf0.subrange(pos + 1 as int, pos + 1 + label_len as int);
                let ghost lowered = lower_bytes(label_view);
                let ghost delim = if acc.len() > 0 {
                    seq![DOT]
                } else {
                    Seq::<u8>::empty()
                };
                if !first {
                    outstr.push(DOT);
                }
                proof {
                    assert(out0 + acc + delim + lowered.take(0) =~= outstr@);
                }
                let mut k: usize = 0;
                while k < label_len
                    invariant
                        label_slice@ == label_view,
                        label_view.len() == label_len,
                        lowered == lower_bytes(label_view),
                        0 <= k <= label_len,
                        outstr@ == out0 + acc + delim + lowered.take(k as int),
                    decreases label_len - k,
                {
                    let b = label_slice[k];
                    outstr.push(lower_ascii(b));
                    proof {
                        assert((out0 + acc + delim + lowered.take(k as int)).push(
                            lower_byte(label_view[k as int]),
                        ) =~= out0 + acc + delim + lowered.take(k + 1 as int));
                    }
                    k += 1;
                }
                proof {
                    assert(lowered.take(label_len as int) =~= lowered);
                    assert(out0 + acc + delim + lowered =~= out0 + join2(acc, lowered));
                    let after = read_name_rec(buf0, pos + 1 + label_len as int, num_jumps as int);
                    assert(before == NameRead {
                        status: after.status,
                        text: join2(lowered, after.text),
                        end: after.end,
                        fp: after.fp,
                    });
                    lemma_join2_assoc(acc, lowered, after.text);
                    acc = join2(acc, lowered);
                }
                first = false;
                pos = pos + 1 + label_len;
            }
        }
    }

    /// Encodes the dot-separated name `qname` at the cursor as
    /// length-prefixed labels followed by a zero terminator, never emitting
    /// compression pointers. A label longer than 63 bytes fails with a
    /// label-length error before any of its bytes are written; running out
    /// of room fails with an out-of-bounds error. Either way the labels
    /// already encoded stay in the buffer and the cursor stays after the
    /// last byte written.
    pub fn write_qname(&mut self, qname: &[u8]) -> (r: Result<(), DnsError>)
        requires
            old(self).wf(),
        ensures
            final(self).wf(),
            ({
                let p0 = old(self).pos as int;
                let plan = enc_plan(qname@);
                let data = plan_bytes(plan);
                &&& final(self).buf@ == written(old(self).buf@, p0, data)
                &&& final(self).pos == p0 + fit_len(p0, data.len() as int)
                &&& (r is Ok <==> plan is Complete && p0 + data.len() <= BUF_SIZE)
                &&& (plan is Complete && p0 + data.len() > BUF_SIZE ==> r == Err::<
                    (),
                    DnsError,
                >(DnsError::IndexOutOfBound))
                &&& (plan is LongLabel && (data.len() == 0 || p0 + data.len() <= BUF_SIZE)
                    ==> r == Err::<(), DnsError>(DnsError::LabelLenLimit))
                &&& (plan is LongLabel && data.len() > 0 && p0 + data.len() > BUF_SIZE
                    ==> r == Err::<(), DnsError>(DnsError::IndexOutOfBound))
            }),
    {
        let ghost whole = qname@;
        let ghost buf0 = self.buf@;
        let ghost p0 = self.pos as int;
        let n = qname.len();
        let mut i: usize = 0;
        let ghost mut done = Seq::<u8>::empty();
        proof {
            lemma_written_empty(buf0, p0);
            assert(whole.subrange(0, n as int) =~= whole);
        }
        loop
            invariant
                self.wf(),
                buf0 == old(self).buf@,
                p0 == old(self).pos as int,
                qname@ == whole,
                n == whole.len(),
                0 <= i <= n,
                self.pos as int == p0 + done.len(),
                done.len() > 0 ==> p0 + done.len() <= BUF_SIZE,
                self.buf@ == written(buf0, p0, done),
                plan_bytes(enc_plan(whole)) == done + plan_bytes(
                    enc_plan(whole.subrange(i as int, n as int)),
                ),
                enc_plan(whole) is Complete <==> enc_plan(whole.subrange(i as int, n as int))
                    is Complete,
            decreases n - i,
        {
            let ghost suffix = whole.subrange(i as int, n as int);
            let mut j: usize = i;
            while j < n && qname[j] != DOT
                invariant
                    qname@ == whole,
                    n == whole.len(),
                    i <= j <= n,
                    forall|k: int| i <= k < j ==> whole[k] != DOT,
                decreases n - j,
            {
                j += 1;
            }
            proof {
                assert(forall|k: int| 0 <= k < j - i ==> suffix[k] == whole[i + k]);
                lemma_first_dot_is(suffix, (j - i) as nat);
            }
            let len = j - i;
            if len > MAX_LABEL_LEN {
                proof {
                    assert(done + plan_bytes(enc_plan(suffix)) =~= done);
                }
                return Err(DnsError::LabelLenLimit);
            }
            let ghost label = whole.subrange(i as int, j as int);
            let ghost tail = if j == n {
                seq![0u8]
            } else {
                plan_bytes(enc_plan(whole.subrange(j + 1 as int, n as int)))
            };
            let ghost cr = if j == n {
                true
            } else {
                enc_plan(whole.subrange(j + 1 as int, n as int)) is Complete
            };
            proof {
                assert(suffix.subrange(0, (j - i) as int) =~= label);
                if j < n {
                    assert(suffix.subrange(j - i + 1 as int, suffix.len() as int) =~= whole
                        .subrange(j + 1 as int, n as int));
                } else {
                    assert(label =~= suffix);
                }
                assert(plan_bytes(enc_plan(suffix)) == seq![len as u8] + label + tail);
                assert(enc_plan(suffix) is Complete <==> cr);
                assert(done.is_prefix_of(plan_bytes(enc_plan(whole))));
            }
            match self.write(len as u8) {
                Ok(u) => u,
                Err(e) => {
                    proof {
                        lemma_written_saturated(buf0, p0, done, plan_bytes(enc_plan(whole)));
                    }
                    return Err(e);
                },
            }
            proof {
                lemma_written_push(buf0, p0, done, p0 + done.len(), len as u8);
                done = done.push(len as u8);
                assert(plan_bytes(enc_plan(whole)) =~= done + label + tail);
            }
            let mut k = i;
            while k < j
                invariant
                    self.wf(),
                    buf0 == old(self).buf@,
                    p0 == old(self).pos as int,
                    qname@ == whole,
                    n == whole.len(),
                    i <= k <= j <= n,
                    label == whole.subrange(i as int, j as int),
                    done.len() >= 1,
                    self.pos as int == p0 + done.len() + (k - i),
                    p0 + done.len() + (k - i) <= BUF_SIZE,
                    self.buf@ == written(buf0, p0, done + label.take((k - i) as int)),
                    plan_bytes(enc_plan(whole)) == done + label + tail,
                    enc_plan(whole) is Complete <==> cr,
                    j == n ==> cr && tail == seq![0u8],
                decreases j - k,
            {
                let ghost part = done + label.take((k - i) as int);
                match self.write(qname[k]) {
                    Ok(u) => u,
                    Err(e) => {
                        proof {
                            assert(part.is_prefix_of(plan_bytes(enc_plan(whole))));
                            lemma_written_saturated(buf0, p0, part, plan_bytes(enc_plan(whole)));
                        }
                        return Err(e);
                    },
                }
                proof {
                    lemma_written_push(buf0, p0, part, p0 + part.len(), whole[k as int]);
                    assert(part.push(whole[k as int]) =~= done + label.take((k + 1 - i) as int));
                }
                k += 1;
            }
            proof {
                assert(label.take((j - i) as int) =~= label);
                done = done + label;
                assert(plan_bytes(enc_plan(whole)) == done + tail);
            }
            if j == n {
                let w = self.write(0);
                match w {
                    Ok(u) => {
                        proof {
                            lemma_written_push(buf0, p0, done, p0 + done.len(), 0u8);
                            assert(done.push(0u8) =~= done + tail);
                        }
                        return Ok(u);
                    },
                    Err(e) => {
                        proof {
                            assert(done.is_prefix_of(plan_bytes(enc_plan(whole))));
                            lemma_written_saturated(buf0, p0, done, plan_bytes(enc_plan(whole)));
                        }
                        return Err(e);
                    },
                }
            }
            i = j + 1;
            proof {
                assert(plan_bytes(enc_plan(whole)) == done + plan_bytes(
                    enc_plan(whole.subrange(i as int, n as int)),
                ));
            }
        }
    }

    /// Writes `val` directly at absolute offset `pos`, independent of the
    /// cursor, for backpatching fields already appended past. The offset
    /// must lie within capacity: that is the caller's obligation, kept here
    /// as a precondition rather than a runtime check.
    pub fn set(&mut self, pos: usize, val: u8) -> (r: Result<(), DnsError>)
        requires
            old(self).wf(),
            pos < BUF_SIZE,
        ensures
            final(self).wf(),
            final(self).buf@ == old(self).buf@.update(pos as int, val),
            final(self).pos == old(self).pos,
            r == Ok::<(), DnsError>(()),
    {
        self.buf[pos] = val;
        Ok(())
    }

    /// Writes the 16-bit value `val` big-endian at absolute offsets `pos`
    /// and `pos + 1`, independent of the cursor. As with `set`, keeping
    /// both offsets within capacity is the caller's obligation.
    pub fn set_u16(&mut self, pos: usize, val: u16) -> (r: Result<(), DnsError>)
        requires
            old(self).wf(),
            pos + 1 < BUF_SIZE,
        ensures
            final(self).wf(),
            final(self).buf@ == old(self).buf@.update(pos as int, hi16(val)).update(
                pos + 1,
                lo16(val),
            ),
            final(self).pos == old(self).pos,
            r == Ok::<(), DnsError>(()),
    {
        self.buf[pos] = (val / 0x100) as u8;
        self.buf[pos + 1] = (val % 0x100) as u8;
        Ok(())
    }
}


/// ASCII lowercasing of one byte, the executable twin of `lower_byte`.
fn lower_ascii(b: u8) -> (r: u8)
    ensures
        r == lower_byte(b),
{
    if 65 <= b && b <= 90 {
        b + 32
    } else {
        b
    }
}

} // verus!
