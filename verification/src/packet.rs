//! The bounded packet buffer: a fixed 512-byte region with a read/write
//! cursor, bounds-checked primitive accessors, and the compression-aware
//! name codec. No code outside this type indexes the backing storage.

use vstd::prelude::*;

use crate::header::{spec_read_header, Header};
use crate::query::QueryType;
use crate::question::{spec_read_question, spec_write_question_at, Question, QuestionView};
use crate::record::{spec_read_record, spec_write_record_at, Record, RecordView};
use crate::DnsError;
use crate::name::{
    join2, lemma_first_dot_char, lemma_name_end_bound, lemma_skip_agree, lemma_split_nonempty,
    lower_byte, lower_seq,
    name_end, name_scan, ptr_target, spec_write_labels_at, spec_write_name_at, split_on_dot,
    splice, to_lower, u16_bytes, u16_of, u32_bytes, u32_of, DOT, MAX_JUMPS, PACKET_SIZE,
};

verus! {

/// What a big-endian 16-bit read at byte offset `pos` yields.
pub open spec fn spec_read_u16_at(buf: Seq<u8>, pos: int) -> Result<(u16, int), DnsError> {
    if 0 <= pos && pos + 2 <= PACKET_SIZE {
        Ok((u16_of(buf[pos], buf[pos + 1]), pos + 2))
    } else {
        Err(DnsError::BufferOverrun)
    }
}

/// What a big-endian 32-bit read at byte offset `pos` yields.
pub open spec fn spec_read_u32_at(buf: Seq<u8>, pos: int) -> Result<(u32, int), DnsError> {
    if 0 <= pos && pos + 4 <= PACKET_SIZE {
        Ok((u32_of(buf[pos], buf[pos + 1], buf[pos + 2], buf[pos + 3]), pos + 4))
    } else {
        Err(DnsError::BufferOverrun)
    }
}

/// The mathematical state of a packet buffer: its 512 bytes and its cursor.
#[verifier::ext_equal]
pub struct BufferModel {
    pub bytes: Seq<u8>,
    pub pos: int,
}

/// A fixed 512-byte packet region plus a cursor. The cursor never exceeds
/// 512, and every access is bounds-checked; the backing bytes can only be
/// reached through the accessors below.
pub struct BytePacketBuffer {
    buf: Vec<u8>,
    pos: usize,
}

impl View for BytePacketBuffer {
    type V = BufferModel;

    closed spec fn view(&self) -> BufferModel {
        BufferModel { bytes: self.buf@, pos: self.pos as int }
    }
}

impl BytePacketBuffer {
    /// The buffer invariant: exactly 512 bytes, cursor within them.
    pub open spec fn wf(&self) -> bool {
        &&& self@.bytes.len() == PACKET_SIZE
        &&& 0 <= self@.pos <= PACKET_SIZE
    }

    /// A fresh buffer: all 512 bytes zero, cursor at the start.
    pub fn new() -> (r: BytePacketBuffer)
        ensures
            r.wf(),
            r@.bytes == Seq::new(PACKET_SIZE as nat, |i: int| 0u8),
            r@.pos == 0,
    {
        let mut buf: Vec<u8> = Vec::new();
        let mut i: usize = 0;
        while i < 512
            invariant
                i <= 512,
                buf@ == Seq::new(i as nat, |j: int| 0u8),
            decreases 512 - i,
        {
            buf.push(0u8);
            proof {
                assert(buf@ =~= Seq::new((i + 1) as nat, |j: int| 0u8));
            }
            i = i + 1;
        }
        BytePacketBuffer { buf, pos: 0 }
    }

    /// A buffer loaded with received datagram bytes: the data is copied to
    /// the front, the remainder is zero, and the cursor is at the start.
    /// Fails when the data would not fit in a packet.
    pub fn from_bytes(data: &[u8]) -> (r: Result<BytePacketBuffer, DnsError>)
        ensures
            match r {
                Ok(b) => {
                    &&& data@.len() <= PACKET_SIZE
                    &&& b.wf()
                    &&& b@.pos == 0
                    &&& b@.bytes == data@ + Seq::new((PACKET_SIZE - data@.len()) as nat, |i: int| 0u8)
                },
                Err(e) => e == DnsError::BufferOverrun && data@.len() > PACKET_SIZE,
            },
    {
        if data.len() > 512 {
            return Err(DnsError::BufferOverrun);
        }
        let mut buf: Vec<u8> = Vec::new();
        let mut i: usize = 0;
        while i < data.len()
            invariant
                i <= data@.len() <= 512,
                buf@ == data@.take(i as int),
            decreases data@.len() - i,
        {
            buf.push(data[i]);
            proof {
                assert(buf@ =~= data@.take(i + 1));
            }
            i = i + 1;
        }
        assert(buf@ =~= data@);
        while i < 512
            invariant
                data@.len() <= i <= 512,
                buf@ == data@ + Seq::new((i - data@.len()) as nat, |j: int| 0u8),
            decreases 512 - i,
        {
            buf.push(0u8);
            proof {
                assert(buf@ =~= data@ + Seq::new((i + 1 - data@.len()) as nat, |j: int| 0u8));
            }
            i = i + 1;
        }
        Ok(BytePacketBuffer { buf, pos: 0 })
    }

    /// The current cursor position.
    pub fn pos(&self) -> (r: usize)
        ensures
            r == self@.pos,
    {
        self.pos
    }

    /// Advances the cursor by `steps` without reading, as when skipping
    /// unrecognized record data of a known length. Stepping past the end of
    /// the packet is refused, keeping the cursor inside the buffer.
    pub fn step(&mut self, steps: usize) -> (r: Result<(), DnsError>)
        requires
            old(self).wf(),
        ensures
            final(self).wf(),
            final(self)@.bytes == old(self)@.bytes,
            match r {
                Ok(()) => old(self)@.pos + steps <= PACKET_SIZE
                    && final(self)@.pos == old(self)@.pos + steps,
                Err(e) => {
                    &&& e == DnsError::BufferOverrun
                    &&& old(self)@.pos + steps > PACKET_SIZE
                    &&& final(self)@.pos == old(self)@.pos
                },
            },
    {
        if steps > 512 - self.pos {
            return Err(DnsError::BufferOverrun);
        }
        self.pos = self.pos + steps;
        Ok(())
    }

    /// Sets the cursor directly, as when restoring a position after a
    /// compression jump. Positions past the end of the packet are refused.
    pub fn seek(&mut self, pos: usize) -> (r: Result<(), DnsError>)
        requires
            old(self).wf(),
        ensures
            final(self).wf(),
            final(self)@.bytes == old(self)@.bytes,
            match r {
                Ok(()) => pos <= PACKET_SIZE && final(self)@.pos == pos,
                Err(e) => {
                    &&& e == DnsError::BufferOverrun
                    &&& pos > PACKET_SIZE
                    &&& final(self)@.pos == old(self)@.pos
                },
            },
    {
        if pos > 512 {
            return Err(DnsError::BufferOverrun);
        }
        self.pos = pos;
        Ok(())
    }

    /// Reads the byte at the cursor and advances the cursor by one; fails
    /// once the cursor has reached byte 512.
    pub fn read(&mut self) -> (r: Result<u8, DnsError>)
        requires
            old(self).wf(),
        ensures
            final(self).wf(),
            final(self)@.bytes == old(self)@.bytes,
            match r {
                Ok(v) => {
                    &&& old(self)@.pos < PACKET_SIZE
                    &&& v == old(self)@.bytes[old(self)@.pos]
                    &&& final(self)@.pos == old(self)@.pos + 1
                },
                Err(e) => {
                    &&& e == DnsError::BufferOverrun
                    &&& old(self)@.pos >= PACKET_SIZE
                    &&& final(self)@.pos == old(self)@.pos
                },
            },
    {
        if self.pos >= self.buf.len() {
            return Err(DnsError::BufferOverrun);
        }
        let byte = self.buf[self.pos];
        self.pos = self.pos + 1;
        Ok(byte)
    }

    /// Reads the byte at an absolute position without moving the cursor.
    pub fn get(&mut self, pos: usize) -> (r: Result<u8, DnsError>)
        requires
            old(self).wf(),
        ensures
            final(self).wf(),
            final(self)@ == old(self)@,
            match r {
                Ok(v) => pos < PACKET_SIZE && v == old(self)@.bytes[pos as int],
                Err(e) => e == DnsError::BufferOverrun && pos >= PACKET_SIZE,
            },
    {
        if pos >= self.buf.len() {
            return Err(DnsError::BufferOverrun);
        }
        Ok(self.buf[pos])
    }

    /// Reads `len` bytes starting at an absolute position without moving the
    /// cursor. A range whose end reaches byte 512 is refused, so the final
    /// byte of the packet is never readable through a range: this stricter
    /// bound is deliberate, kept as the codec's documented behavior.
    pub fn get_range(&mut self, start: usize, len: usize) -> (r: Result<&[u8], DnsError>)
        requires
            old(self).wf(),
        ensures
            final(self).wf(),
            final(self)@ == old(self)@,
            match r {
                Ok(s) => {
                    &&& start + len < PACKET_SIZE
                    &&& s@ == old(self)@.bytes.subrange(start as int, start + len)
                },
                Err(e) => e == DnsError::BufferOverrun && start + len >= PACKET_SIZE,
            },
    {
        if start >= 512 || len >= 512 || start + len >= 512 {
            return Err(DnsError::BufferOverrun);
        }
        let s = self.buf.as_slice();
        Ok(vstd::slice::slice_subrange(s, start, start + len))
    }

    /// Big-endian 16-bit read: two cursor reads, most significant byte first.
    pub fn read_u16(&mut self) -> (r: Result<u16, DnsError>)
        requires
            old(self).wf(),
        ensures
            final(self).wf(),
            final(self)@.bytes == old(self)@.bytes,
            match r {
                Ok(v) => {
                    &&& old(self)@.pos + 2 <= PACKET_SIZE
                    &&& v == u16_of(
                        old(self)@.bytes[old(self)@.pos],
                        old(self)@.bytes[old(self)@.pos + 1],
                    )
                    &&& final(self)@.pos == old(self)@.pos + 2
                },
                Err(e) => e == DnsError::BufferOverrun && old(self)@.pos + 2 > PACKET_SIZE,
            },
    {
        let byte1 = self.read()? as u16;
        let byte2 = self.read()? as u16;
        Ok(byte1 << 8 | byte2)
    }

    /// Big-endian 32-bit read: four cursor reads, most significant byte first.
    pub fn read_u32(&mut self) -> (r: Result<u32, DnsError>)
        requires
            old(self).wf(),
        ensures
            final(self).wf(),
            final(self)@.bytes == old(self)@.bytes,
            match r {
                Ok(v) => {
                    &&& old(self)@.pos + 4 <= PACKET_SIZE
                    &&& v == u32_of(
                        old(self)@.bytes[old(self)@.pos],
                        old(self)@.bytes[old(self)@.pos + 1],
                        old(self)@.bytes[old(self)@.pos + 2],
                        old(self)@.bytes[old(self)@.pos + 3],
                    )
                    &&& final(self)@.pos == old(self)@.pos + 4
                },
                Err(e) => e == DnsError::BufferOverrun && old(self)@.pos + 4 > PACKET_SIZE,
            },
    {
        let byte1 = self.read()? as u32;
        let byte2 = self.read()? as u32;
        let byte3 = self.read()? as u32;
        let byte4 = self.read()? as u32;
        Ok(byte1 << 24 | byte2 << 16 | byte3 << 8 | byte4)
    }

    /// Decodes a (possibly compressed) domain name starting at the cursor,
    /// appending lowercase dot-separated labels to `outstr`. The cursor is
    /// left just past the name's in-line representation: past the first
    /// compression pointer if one occurred, else past the terminating zero
    /// byte. Following more than five pointers fails with
    /// `TooManyRedirects`, so pointer cycles cannot loop unboundedly.
    #[verifier::loop_isolation(false)]
    #[verifier::rlimit(60)]
    pub fn read_qname(&mut self, outstr: &mut Vec<u8>) -> (r: Result<(), DnsError>)
        requires
            old(self).wf(),
        ensures
            final(self).wf(),
            final(self)@.bytes == old(self)@.bytes,
            old(outstr)@.is_prefix_of(final(outstr)@),
            match name_scan(old(self)@.bytes, old(self)@.pos, MAX_JUMPS as int) {
                Ok(n) => {
                    &&& r == Ok::<(), DnsError>(())
                    &&& final(outstr)@ == old(outstr)@ + n
                    &&& final(self)@.pos == name_end(old(self)@.bytes, old(self)@.pos)
                },
                Err(e) => r == Err::<(), DnsError>(e),
            },
    {
        let ghost buf = self@.bytes;
        let ghost pos0 = self@.pos;
        let ghost out0 = outstr@;
        let mut pos: usize = self.pos;
        let mut jumped: bool = false;
        let mut jumps_performed: usize = 0;
        let mut delim: bool = false;
        let mut done: bool = false;

        while !done
            invariant
                self.wf(),
                self@.bytes == buf,
                buf.len() == PACKET_SIZE,
                out0.is_prefix_of(outstr@),
                delim <==> outstr@.len() > out0.len(),
                jumps_performed <= MAX_JUMPS,
                pos <= 0xFFFF,
                !done ==> ({
                    let acc = outstr@.skip(out0.len() as int);
                    match name_scan(buf, pos as int, MAX_JUMPS - jumps_performed) {
                        Ok(rest) => name_scan(buf, pos0, MAX_JUMPS as int) == Ok::<
                            Seq<u8>,
                            DnsError,
                        >(join2(acc, rest)),
                        Err(e) => name_scan(buf, pos0, MAX_JUMPS as int) == Err::<
                            Seq<u8>,
                            DnsError,
                        >(e),
                    }
                }),
                jumped ==> self@.pos == name_end(buf, pos0),
                !jumped ==> self@.pos == pos0,
                !done && !jumped ==> name_end(buf, pos as int) == name_end(buf, pos0),
                done ==> name_scan(buf, pos0, MAX_JUMPS as int) == Ok::<Seq<u8>, DnsError>(
                    outstr@.skip(out0.len() as int),
                ) && (!jumped ==> pos == name_end(buf, pos0) && pos <= PACKET_SIZE),
            decreases
                (if done {
                    0int
                } else {
                    1
                }),
                MAX_JUMPS - jumps_performed,
                (if pos < 512 {
                    512 - pos
                } else {
                    0
                }),
        {
            let ghost acc = outstr@.skip(out0.len() as int);
            let len = match self.get(pos) {
                Ok(v) => v,
                Err(e) => {
                    return Err(e);
                },
            };
            if len & 0xC0 == 0xC0 {
                if !jumped {
                    match self.seek(pos + 2) {
                        Ok(()) => {},
                        Err(e) => {
                            return Err(e);
                        },
                    }
                }
                let b2 = match self.get(pos + 1) {
                    Ok(v) => v,
                    Err(e) => {
                        return Err(e);
                    },
                };
                if jumps_performed >= MAX_JUMPS {
                    return Err(DnsError::TooManyRedirects);
                }
                let offset = ((len as u16) ^ 0xC0) << 8 | (b2 as u16);
                proof {
                    assert(offset == ptr_target(len, buf[pos + 1]));
                }
                pos = offset as usize;
                jumped = true;
                jumps_performed = jumps_performed + 1;
            } else if len == 0 {
                let ghost q = pos as int;
                pos = pos + 1;
                proof {
                    assert(name_scan(buf, q, MAX_JUMPS - jumps_performed) == Ok::<
                        Seq<u8>,
                        DnsError,
                    >(Seq::empty()));
                    assert(join2(acc, Seq::empty()) == acc);
                }
                done = true;
            } else {
                let ghost q = pos as int;
                pos = pos + 1;
                let lbl = match self.get_range(pos, len as usize) {
                    Ok(s) => s,
                    Err(e) => {
                        return Err(e);
                    },
                };
                if delim {
                    outstr.push(DOT);
                }
                let ghost pre_out = outstr@;
                let len_us: usize = len as usize;
                let mut k: usize = 0;
                proof {
                    assert(lower_seq(lbl@.take(0)) =~= Seq::<u8>::empty());
                    assert(outstr@ =~= pre_out + lower_seq(lbl@.take(0)));
                }
                while k < len_us
                    invariant
                        k <= len_us,
                        lbl@.len() == len_us,
                        outstr@ == pre_out + lower_seq(lbl@.take(k as int)),
                    decreases len_us - k,
                {
                    let b = *vstd::slice::slice_index_get(lbl, k);
                    outstr.push(to_lower(b));
                    proof {
                        assert(lower_seq(lbl@.take(k + 1)) =~= lower_seq(lbl@.take(k as int)).push(
                            lower_byte(lbl@[k as int]),
                        ));
                        assert(outstr@ =~= pre_out + lower_seq(lbl@.take(k + 1)));
                    }
                    k = k + 1;
                }
                proof {
                    let label = lower_seq(buf.subrange(q + 1, q + 1 + len));
                    assert(lbl@.take(len_us as int) =~= lbl@);
                    assert(outstr@ == pre_out + label);
                    let budget = MAX_JUMPS - jumps_performed;
                    let acc2 = outstr@.skip(out0.len() as int);
                    assert(out0.is_prefix_of(outstr@)) by {
                        assert(outstr@.subrange(0, out0.len() as int) =~= out0);
                    }
                    let dotp = if delim {
                        seq![DOT]
                    } else {
                        Seq::<u8>::empty()
                    };
                    assert(acc2 =~= acc + dotp + label);
                    match name_scan(buf, q + 1 + len, budget) {
                        Ok(rest2) => {
                            assert(name_scan(buf, q, budget) == Ok::<Seq<u8>, DnsError>(
                                if rest2.len() == 0 {
                                    label
                                } else {
                                    label + seq![DOT] + rest2
                                },
                            ));
                            assert(join2(acc, join2(label, rest2)) =~= join2(acc2, rest2));
                        },
                        Err(_) => {},
                    }
                }
                delim = true;
                pos = pos + len_us;
            }
        }
        if !jumped {
            proof {
                lemma_name_end_bound(buf, pos0, MAX_JUMPS as int);
            }
            match self.seek(pos) {
                Ok(()) => {},
                Err(e) => {
                    return Err(e);
                },
            }
        }
        proof {
            assert(outstr@ =~= out0 + outstr@.skip(out0.len() as int));
        }
        Ok(())
    }

    /// Encodes a name as a run of length-prefixed labels terminated by a
    /// zero length byte; a label over 63 bytes fails with `LabelTooLong`.
    /// No compression is produced: outbound names are written in full.
    #[verifier::loop_isolation(false)]
    #[verifier::rlimit(60)]
    pub fn write_qname(&mut self, qname: &[u8]) -> (r: Result<(), DnsError>)
        requires
            old(self).wf(),
        ensures
            final(self).wf(),
            old(self)@.pos <= final(self)@.pos,
            final(self)@.bytes.subrange(0, old(self)@.pos) == old(self)@.bytes.subrange(
                0,
                old(self)@.pos,
            ),
            forall|j: int|
                0 <= j < old(self)@.pos ==> final(self)@.bytes[j] == old(self)@.bytes[j],
            match spec_write_name_at(qname@, old(self)@.pos) {
                Ok(bs) => {
                    &&& r == Ok::<(), DnsError>(())
                    &&& final(self)@.bytes == splice(old(self)@.bytes, old(self)@.pos, bs)
                    &&& final(self)@.pos == old(self)@.pos + bs.len()
                },
                Err(e) => r == Err::<(), DnsError>(e),
            },
    {
        let ghost buf0 = self@.bytes;
        let ghost pos0 = self@.pos;
        let ghost mut rls = split_on_dot(qname@);
        let mut start: usize = 0;
        let n: usize = qname.len();

        proof {
            assert(qname@.skip(0) =~= qname@);
            assert(self@.bytes.subrange(pos0, self@.pos) =~= Seq::<u8>::empty());
        }

        let mut done: bool = false;

        while !done
            invariant
                !done ==> rls == split_on_dot(qname@.skip(start as int)),
                done ==> rls == Seq::<Seq<u8>>::empty(),
                start <= n,
                n == qname@.len(),
                self.wf(),
                self@.bytes.len() == PACKET_SIZE,
                pos0 <= self@.pos <= PACKET_SIZE,
                self@.bytes.take(pos0) == buf0.take(pos0),
                self@.bytes.skip(self@.pos) == buf0.skip(self@.pos),
                ({
                    match spec_write_labels_at(rls, self@.pos) {
                        Ok(bs) => spec_write_name_at(qname@, pos0) == Ok::<Seq<u8>, DnsError>(
                            self@.bytes.subrange(pos0, self@.pos) + bs,
                        ),
                        Err(e) => spec_write_name_at(qname@, pos0) == Err::<Seq<u8>, DnsError>(e),
                    }
                }),
            decreases
                (if done {
                    0int
                } else {
                    1
                }),
                n - start,
        {
            let ghost pre = self@;
            let mut end: usize = start;
            let mut scanning: bool = true;
            while scanning
                invariant
                    start <= end <= n,
                    forall|j: int| start <= j < end ==> qname@[j] != DOT,
                    !scanning ==> (end == n || qname@[end as int] == DOT),
                decreases
                    n - end,
                    (if scanning {
                        1int
                    } else {
                        0
                    }),
            {
                if end >= n {
                    scanning = false;
                } else {
                    let b = *vstd::slice::slice_index_get(qname, end);
                    if b == DOT {
                        scanning = false;
                    } else {
                        end = end + 1;
                    }
                }
            }
            proof {
                lemma_split_nonempty(qname@.skip(start as int));
                lemma_first_dot_char(qname@.skip(start as int), end - start);
                assert(qname@.skip(start as int).take(end - start) =~= qname@.subrange(
                    start as int,
                    end as int,
                ));
                if end < n {
                    assert(qname@.skip(start as int).skip(end - start + 1) =~= qname@.skip(
                        end + 1,
                    ));
                }
                assert(rls[0] =~= qname@.subrange(start as int, end as int));
            }
            let len = end - start;
            if len > 63 {
                proof {
                    assert forall|j: int| 0 <= j < pos0 implies self@.bytes[j] == buf0[j] by {
                        assert(self@.bytes.take(pos0)[j] == buf0.take(pos0)[j]);
                    }
                }
                return Err(DnsError::LabelTooLong);
            }
            match self.write_u8(len as u8) {
                Ok(()) => {},
                Err(e) => {
                    proof {
                        assert forall|j: int| 0 <= j < pos0 implies self@.bytes[j] == buf0[j] by {
                            assert(self@.bytes.take(pos0)[j] == buf0.take(pos0)[j]);
                        }
                    }
                    return Err(e);
                },
            }
            let mut i: usize = start;
            while i < end
                invariant
                    start <= i <= end <= n,
                    n == qname@.len(),
                    end - start <= 63,
                    self.wf(),
                    self@.bytes.len() == PACKET_SIZE,
                    pos0 <= pre.pos,
                    self@.pos == pre.pos + 1 + (i - start),
                    forall|j: int| 0 <= j < pre.pos ==> self@.bytes[j] == pre.bytes[j],
                    forall|j: int|
                        self@.pos <= j < PACKET_SIZE ==> self@.bytes[j] == pre.bytes[j],
                    self@.bytes[pre.pos as int] == (end - start) as u8,
                    forall|j: int|
                        start <= j < i ==> self@.bytes[pre.pos + 1 + (j - start)] == qname@[j],
                decreases end - i,
            {
                let b = *vstd::slice::slice_index_get(qname, i);
                match self.write_u8(b) {
                    Ok(()) => {},
                    Err(e) => {
                        proof {
                            assert(spec_write_labels_at(rls, pre.pos) == Err::<Seq<u8>, DnsError>(
                                DnsError::BufferOverrun,
                            ));
                            assert forall|j: int| 0 <= j < pos0 implies pre.bytes[j] == buf0[j] by {
                                assert(pre.bytes.take(pos0)[j] == buf0.take(pos0)[j]);
                            }
                            assert(self@.bytes.subrange(0, pos0) =~= buf0.subrange(0, pos0));
                        }
                        return Err(e);
                    },
                }
                i = i + 1;
            }
            proof {
                let label = rls[0];
                let emitted_pre = pre.bytes.subrange(pos0, pre.pos);
                let emitted_now = self@.bytes.subrange(pos0, self@.pos);
                assert(label.len() == end - start);
                assert forall|j: int| 0 <= j < pos0 implies pre.bytes[j] == buf0[j] by {
                    assert(pre.bytes.take(pos0)[j] == buf0.take(pos0)[j]);
                }
                assert(self@.bytes.take(pos0) =~= buf0.take(pos0));
                assert(self@.bytes.skip(self@.pos) =~= pre.bytes.skip(self@.pos));
                lemma_skip_agree(pre.bytes, buf0, pre.pos, self@.pos);
                assert(self@.bytes.skip(self@.pos) =~= buf0.skip(self@.pos));
                assert(emitted_now =~= emitted_pre + seq![label.len() as u8] + label);
                rls = rls.drop_first();
                if end == n {
                    assert(qname@.skip(start as int).take(end - start) =~= qname@.skip(
                        start as int,
                    ));
                }
                match spec_write_labels_at(rls, self@.pos) {
                    Ok(bs) => {
                        assert(spec_write_name_at(qname@, pos0) == Ok::<Seq<u8>, DnsError>(
                            emitted_now + bs,
                        )) by {
                            assert(emitted_pre + (seq![label.len() as u8] + label + bs)
                                =~= emitted_now + bs);
                        }
                    },
                    Err(_) => {},
                }
            }
            if end == n {
                done = true;
            } else {
                start = end + 1;
            }
        }
        let ghost pre = self@;
        match self.write_u8(0) {
            Ok(()) => {},
            Err(e) => {
                proof {
                    assert forall|j: int| 0 <= j < pos0 implies self@.bytes[j] == buf0[j] by {
                        assert(self@.bytes.take(pos0)[j] == buf0.take(pos0)[j]);
                    }
                }
                return Err(e);
            },
        }
        proof {
            assert(self@.bytes.subrange(pos0, self@.pos) =~= pre.bytes.subrange(pos0, pre.pos)
                + seq![0u8]);
            assert(self@.bytes.take(pos0) =~= buf0.take(pos0));
            lemma_skip_agree(pre.bytes, buf0, pre.pos, self@.pos);
            assert(self@.bytes.skip(self@.pos) =~= buf0.skip(self@.pos));
            match spec_write_name_at(qname@, pos0) {
                Ok(bs) => {
                    assert(bs == self@.bytes.subrange(pos0, self@.pos));
                    assert(self@.bytes =~= splice(buf0, pos0, bs));
                    assert(self@.bytes.subrange(0, pos0) =~= buf0.subrange(0, pos0));
                },
                Err(_) => {},
            }
        }
        Ok(())
    }

    /// Writes one byte at the cursor and advances it; fails once the cursor
    /// has reached byte 512.
    fn write(&mut self, val: u8) -> (r: Result<(), DnsError>)
        requires
            old(self).wf(),
        ensures
            final(self).wf(),
            match r {
                Ok(()) => {
                    &&& old(self)@.pos < PACKET_SIZE
                    &&& final(self)@.bytes == old(self)@.bytes.update(old(self)@.pos, val)
                    &&& final(self)@.pos == old(self)@.pos + 1
                },
                Err(e) => {
                    &&& e == DnsError::BufferOverrun
                    &&& old(self)@.pos >= PACKET_SIZE
                    &&& final(self)@ == old(self)@
                },
            },
    {
        if self.pos >= self.buf.len() {
            return Err(DnsError::BufferOverrun);
        }
        self.buf.set(self.pos, val);
        self.pos = self.pos + 1;
        Ok(())
    }

    /// Writes one byte at the cursor.
    pub fn write_u8(&mut self, val: u8) -> (r: Result<(), DnsError>)
        requires
            old(self).wf(),
        ensures
            final(self).wf(),
            match r {
                Ok(()) => {
                    &&& old(self)@.pos < PACKET_SIZE
                    &&& final(self)@.bytes == old(self)@.bytes.update(old(self)@.pos, val)
                    &&& final(self)@.pos == old(self)@.pos + 1
                },
                Err(e) => {
                    &&& e == DnsError::BufferOverrun
                    &&& old(self)@.pos >= PACKET_SIZE
                    &&& final(self)@ == old(self)@
                },
            },
    {
        self.write(val)?;
        Ok(())
    }

    /// Big-endian 16-bit write at the cursor.
    pub fn write_u16(&mut self, val: u16) -> (r: Result<(), DnsError>)
        requires
            old(self).wf(),
        ensures
            final(self).wf(),
            old(self)@.pos <= final(self)@.pos,
            final(self)@.bytes.subrange(0, old(self)@.pos)
                == old(self)@.bytes.subrange(0, old(self)@.pos),
            forall|j: int|
                0 <= j < old(self)@.pos ==> final(self)@.bytes[j] == old(self)@.bytes[j],
            match r {
                Ok(()) => {
                    &&& old(self)@.pos + 2 <= PACKET_SIZE
                    &&& final(self)@.bytes == splice(
                        old(self)@.bytes,
                        old(self)@.pos,
                        u16_bytes(val),
                    )
                    &&& final(self)@.pos == old(self)@.pos + 2
                },
                Err(e) => e == DnsError::BufferOverrun && old(self)@.pos + 2 > PACKET_SIZE,
            },
    {
        let ghost pre = self@;
        self.write((val >> 8) as u8)?;
        self.write((val & 0xFF) as u8)?;
        proof {
            assert(self@.bytes =~= splice(pre.bytes, pre.pos, u16_bytes(val)));
            assert(self@.bytes.subrange(0, pre.pos) =~= pre.bytes.subrange(0, pre.pos));
        }
        Ok(())
    }

    /// Big-endian 32-bit write at the cursor.
    pub fn write_u32(&mut self, val: u32) -> (r: Result<(), DnsError>)
        requires
            old(self).wf(),
        ensures
            final(self).wf(),
            old(self)@.pos <= final(self)@.pos,
            final(self)@.bytes.subrange(0, old(self)@.pos)
                == old(self)@.bytes.subrange(0, old(self)@.pos),
            forall|j: int|
                0 <= j < old(self)@.pos ==> final(self)@.bytes[j] == old(self)@.bytes[j],
            match r {
                Ok(()) => {
                    &&& old(self)@.pos + 4 <= PACKET_SIZE
                    &&& final(self)@.bytes == splice(
                        old(self)@.bytes,
                        old(self)@.pos,
                        u32_bytes(val),
                    )
                    &&& final(self)@.pos == old(self)@.pos + 4
                },
                Err(e) => e == DnsError::BufferOverrun && old(self)@.pos + 4 > PACKET_SIZE,
            },
    {
        let ghost pre = self@;
        self.write(((val >> 24) & 0xFF) as u8)?;
        self.write(((val >> 16) & 0xFF) as u8)?;
        self.write(((val >> 8) & 0xFF) as u8)?;
        self.write((val & 0xFF) as u8)?;
        proof {
            assert(self@.bytes =~= splice(pre.bytes, pre.pos, u32_bytes(val)));
            assert(self@.bytes.subrange(0, pre.pos) =~= pre.bytes.subrange(0, pre.pos));
        }
        Ok(())
    }
}

/// The mathematical content of a whole message.
#[verifier::ext_equal]
pub struct PacketView {
    pub header: Header,
    pub questions: Seq<QuestionView>,
    pub answers: Seq<RecordView>,
    pub authorities: Seq<RecordView>,
    pub resources: Seq<RecordView>,
}

/// What reading `n` consecutive questions at byte offset `pos` yields.
pub open spec fn spec_read_questions(buf: Seq<u8>, pos: int, n: int) -> Result<
    (Seq<QuestionView>, int),
    DnsError,
>
    decreases n,
{
    if n <= 0 {
        Ok((Seq::empty(), pos))
    } else {
        match spec_read_question(buf, pos) {
            Err(e) => Err(e),
            Ok((q, p1)) => match spec_read_questions(buf, p1, n - 1) {
                Err(e) => Err(e),
                Ok((qs, p2)) => Ok((seq![q] + qs, p2)),
            },
        }
    }
}

/// What reading `n` consecutive records at byte offset `pos` yields.
pub open spec fn spec_read_records(buf: Seq<u8>, pos: int, n: int) -> Result<
    (Seq<RecordView>, int),
    DnsError,
>
    decreases n,
{
    if n <= 0 {
        Ok((Seq::empty(), pos))
    } else {
        match spec_read_record(buf, pos) {
            Err(e) => Err(e),
            Ok((x, p1)) => match spec_read_records(buf, p1, n - 1) {
                Err(e) => Err(e),
                Ok((xs, p2)) => Ok((seq![x] + xs, p2)),
            },
        }
    }
}

/// What decoding a whole message at byte offset `pos` yields: the header
/// first, then exactly as many questions and answer, authority and
/// additional records as its counts declare, in that fixed order.
pub open spec fn spec_decode_message(buf: Seq<u8>, pos: int) -> Result<(PacketView, int), DnsError> {
    match spec_read_header(buf, pos) {
        Err(e) => Err(e),
        Ok((h, p1)) => match spec_read_questions(buf, p1, h.qdcount as int) {
            Err(e) => Err(e),
            Ok((qs, p2)) => match spec_read_records(buf, p2, h.ancount as int) {
                Err(e) => Err(e),
                Ok((ans, p3)) => match spec_read_records(buf, p3, h.nscount as int) {
                    Err(e) => Err(e),
                    Ok((auth, p4)) => match spec_read_records(buf, p4, h.arcount as int) {
                        Err(e) => Err(e),
                        Ok((res, p5)) => Ok(
                            (
                                PacketView {
                                    header: h,
                                    questions: qs,
                                    answers: ans,
                                    authorities: auth,
                                    resources: res,
                                },
                                p5,
                            ),
                        ),
                    },
                },
            },
        },
    }
}

/// What writing the questions one after another at byte offset `pos` emits.
pub open spec fn spec_write_questions_at(qs: Seq<QuestionView>, pos: int) -> Result<
    Seq<u8>,
    DnsError,
>
    decreases qs.len(),
{
    if qs.len() == 0 {
        Ok(Seq::empty())
    } else {
        match spec_write_question_at(qs[0], pos) {
            Err(e) => Err(e),
            Ok(b1) => match spec_write_questions_at(qs.drop_first(), pos + b1.len()) {
                Err(e) => Err(e),
                Ok(b2) => Ok(b1 + b2),
            },
        }
    }
}

/// What writing the records one after another at byte offset `pos` emits.
pub open spec fn spec_write_records_at(rs: Seq<RecordView>, pos: int) -> Result<Seq<u8>, DnsError>
    decreases rs.len(),
{
    if rs.len() == 0 {
        Ok(Seq::empty())
    } else {
        match spec_write_record_at(rs[0], pos) {
            Err(e) => Err(e),
            Ok(b1) => match spec_write_records_at(rs.drop_first(), pos + b1.len()) {
                Err(e) => Err(e),
                Ok(b2) => Ok(b1 + b2),
            },
        }
    }
}

/// What encoding a whole message at byte offset `pos` emits: header, then
/// the four sections in the fixed wire order.
pub open spec fn spec_encode_message_at(m: PacketView, pos: int) -> Result<Seq<u8>, DnsError> {
    if 0 <= pos && pos + 12 <= PACKET_SIZE {
        let hb = crate::header::spec_header_bytes(m.header);
        match spec_write_questions_at(m.questions, pos + 12) {
            Err(e) => Err(e),
            Ok(qb) => match spec_write_records_at(m.answers, pos + 12 + qb.len()) {
                Err(e) => Err(e),
                Ok(ab) => match spec_write_records_at(
                    m.authorities,
                    pos + 12 + qb.len() + ab.len(),
                ) {
                    Err(e) => Err(e),
                    Ok(ub) => match spec_write_records_at(
                        m.resources,
                        pos + 12 + qb.len() + ab.len() + ub.len(),
                    ) {
                        Err(e) => Err(e),
                        Ok(rb) => Ok(hb + qb + ab + ub + rb),
                    },
                },
            },
        }
    } else {
        Err(DnsError::BufferOverrun)
    }
}

/// The message with its header counts replaced by the live lengths of its
/// four sequences; encoding always passes through this, so the collections,
/// not the stored counts, are the source of truth.
pub open spec fn spec_recount(m: PacketView) -> PacketView {
    PacketView {
        header: Header {
            qdcount: m.questions.len() as u16,
            ancount: m.answers.len() as u16,
            nscount: m.authorities.len() as u16,
            arcount: m.resources.len() as u16,
            ..m.header
        },
        ..m
    }
}

/// One complete message: a header and the four sections.
#[derive(Clone, Debug)]
pub struct Packet {
    pub header: Header,
    pub questions: Vec<Question>,
    pub answers: Vec<Record>,
    pub authorities: Vec<Record>,
    pub resources: Vec<Record>,
}

impl View for Packet {
    type V = PacketView;

    open spec fn view(&self) -> PacketView {
        PacketView {
            header: self.header,
            questions: self.questions@.map_values(|q: Question| q@),
            answers: self.answers@.map_values(|x: Record| x@),
            authorities: self.authorities@.map_values(|x: Record| x@),
            resources: self.resources@.map_values(|x: Record| x@),
        }
    }
}

/// Reads `count` consecutive questions at the cursor.
#[verifier::loop_isolation(false)]
fn read_questions(buffer: &mut BytePacketBuffer, count: u16) -> (r: Result<Vec<Question>, DnsError>)
    requires
        old(buffer).wf(),
    ensures
        final(buffer).wf(),
        final(buffer)@.bytes == old(buffer)@.bytes,
        match spec_read_questions(old(buffer)@.bytes, old(buffer)@.pos, count as int) {
            Ok(pair) => {
                &&& r matches Ok(v) && v@.map_values(|q: Question| q@) == pair.0
                &&& final(buffer)@.pos == pair.1
            },
            Err(e) => r == Err::<Vec<Question>, DnsError>(e),
        },
{
    let ghost buf0 = buffer@.bytes;
    let ghost pos0 = buffer@.pos;
    let mut out: Vec<Question> = Vec::new();
    let mut i: u16 = 0;
    proof {
        assert(out@.map_values(|q: Question| q@) =~= Seq::<QuestionView>::empty());
    }
    while i < count
        invariant
            buffer.wf(),
            buffer@.bytes == buf0,
            i <= count,
            out@.len() == i,
            ({
                let acc = out@.map_values(|q: Question| q@);
                match spec_read_questions(buf0, buffer@.pos, count - i) {
                    Ok(pair) => spec_read_questions(buf0, pos0, count as int) == Ok::<
                        (Seq<QuestionView>, int),
                        DnsError,
                    >((acc + pair.0, pair.1)),
                    Err(e) => spec_read_questions(buf0, pos0, count as int) == Err::<
                        (Seq<QuestionView>, int),
                        DnsError,
                    >(e),
                }
            }),
        decreases count - i,
    {
        let ghost acc = out@.map_values(|q: Question| q@);
        let ghost pprev = buffer@.pos;
        let mut question = Question::new(Vec::new(), QueryType::UNKNOWN(0));
        match question.read(buffer) {
            Ok(()) => {},
            Err(e) => {
                return Err(e);
            },
        }
        out.push(question);
        proof {
            match spec_read_question(buf0, pprev) {
                Ok(pair) => {
                    let (qv, pnext) = pair;
                    assert(Seq::<u8>::empty() + qv.name =~= qv.name);
                    assert(out@[i as int]@ =~= qv);
                    let accnew = out@.map_values(|q: Question| q@);
                    assert(accnew =~= acc.push(qv));
                    match spec_read_questions(buf0, buffer@.pos, count - (i + 1)) {
                        Ok(pair2) => {
                            assert(acc + (seq![qv] + pair2.0) =~= accnew + pair2.0);
                        },
                        Err(_) => {},
                    }
                },
                Err(_) => {
                    assert(false);
                },
            }
        }
        i = i + 1;
    }
    proof {
        let acc = out@.map_values(|q: Question| q@);
        assert(acc + Seq::<QuestionView>::empty() =~= acc);
    }
    Ok(out)
}

/// Reads `count` consecutive records at the cursor.
#[verifier::loop_isolation(false)]
fn read_records(buffer: &mut BytePacketBuffer, count: u16) -> (r: Result<Vec<Record>, DnsError>)
    requires
        old(buffer).wf(),
    ensures
        final(buffer).wf(),
        final(buffer)@.bytes == old(buffer)@.bytes,
        match spec_read_records(old(buffer)@.bytes, old(buffer)@.pos, count as int) {
            Ok(pair) => {
                &&& r matches Ok(v) && v@.map_values(|x: Record| x@) == pair.0
                &&& final(buffer)@.pos == pair.1
            },
            Err(e) => r == Err::<Vec<Record>, DnsError>(e),
        },
{
    let ghost buf0 = buffer@.bytes;
    let ghost pos0 = buffer@.pos;
    let mut out: Vec<Record> = Vec::new();
    let mut i: u16 = 0;
    proof {
        assert(out@.map_values(|x: Record| x@) =~= Seq::<RecordView>::empty());
    }
    while i < count
        invariant
            buffer.wf(),
            buffer@.bytes == buf0,
            i <= count,
            out@.len() == i,
            ({
                let acc = out@.map_values(|x: Record| x@);
                match spec_read_records(buf0, buffer@.pos, count - i) {
                    Ok(pair) => spec_read_records(buf0, pos0, count as int) == Ok::<
                        (Seq<RecordView>, int),
                        DnsError,
                    >((acc + pair.0, pair.1)),
                    Err(e) => spec_read_records(buf0, pos0, count as int) == Err::<
                        (Seq<RecordView>, int),
                        DnsError,
                    >(e),
                }
            }),
        decreases count - i,
    {
        let ghost acc = out@.map_values(|x: Record| x@);
        let ghost pprev = buffer@.pos;
        let rec = match Record::read(buffer) {
            Ok(v) => v,
            Err(e) => {
                return Err(e);
            },
        };
        out.push(rec);
        proof {
            match spec_read_record(buf0, pprev) {
                Ok(pair) => {
                    let (rv, pnext) = pair;
                    let accnew = out@.map_values(|x: Record| x@);
                    assert(accnew =~= acc.push(rv));
                    match spec_read_records(buf0, buffer@.pos, count - (i + 1)) {
                        Ok(pair2) => {
                            assert(acc + (seq![rv] + pair2.0) =~= accnew + pair2.0);
                        },
                        Err(_) => {},
                    }
                },
                Err(_) => {
                    assert(false);
                },
            }
        }
        i = i + 1;
    }
    proof {
        let acc = out@.map_values(|x: Record| x@);
        assert(acc + Seq::<RecordView>::empty() =~= acc);
    }
    Ok(out)
}

/// Writes the questions one after another at the cursor.
#[verifier::loop_isolation(false)]
#[verifier::rlimit(100)]
fn write_questions(buffer: &mut BytePacketBuffer, qs: &Vec<Question>) -> (r: Result<(), DnsError>)
    requires
        old(buffer).wf(),
    ensures
        final(buffer).wf(),
        old(buffer)@.pos <= final(buffer)@.pos,
        forall|j: int|
            0 <= j < old(buffer)@.pos ==> final(buffer)@.bytes[j] == old(buffer)@.bytes[j],
        match spec_write_questions_at(qs@.map_values(|q: Question| q@), old(buffer)@.pos) {
            Ok(bs) => {
                &&& r == Ok::<(), DnsError>(())
                &&& final(buffer)@.bytes == splice(old(buffer)@.bytes, old(buffer)@.pos, bs)
                &&& final(buffer)@.pos == old(buffer)@.pos + bs.len()
            },
            Err(e) => r == Err::<(), DnsError>(e),
        },
{
    let ghost b0 = buffer@;
    let ghost qvs = qs@.map_values(|q: Question| q@);
    let mut idx: usize = 0;
    proof {
        assert(qvs.skip(0) =~= qvs);
        assert(buffer@.bytes.subrange(b0.pos, b0.pos) =~= Seq::<u8>::empty());
        match spec_write_questions_at(qvs, b0.pos) {
            Ok(bs) => {
                assert(Seq::<u8>::empty() + bs =~= bs);
            },
            Err(_) => {},
        }
    }
    while idx < qs.len()
        invariant
            buffer.wf(),
            idx <= qvs.len(),
            b0.pos <= buffer@.pos <= PACKET_SIZE,
            forall|j: int| 0 <= j < b0.pos ==> buffer@.bytes[j] == b0.bytes[j],
            forall|j: int|
                buffer@.pos <= j < PACKET_SIZE ==> buffer@.bytes[j] == b0.bytes[j],
            ({
                let emitted = buffer@.bytes.subrange(b0.pos, buffer@.pos);
                match spec_write_questions_at(qvs.skip(idx as int), buffer@.pos) {
                    Ok(bs) => spec_write_questions_at(qvs, b0.pos) == Ok::<Seq<u8>, DnsError>(
                        emitted + bs,
                    ),
                    Err(e) => spec_write_questions_at(qvs, b0.pos) == Err::<Seq<u8>, DnsError>(e),
                }
            }),
        decreases qvs.len() - idx,
    {
        let ghost prev = buffer@;
        let ghost emitted = prev.bytes.subrange(b0.pos, prev.pos);
        proof {
            assert(qvs.skip(idx as int)[0] == qvs[idx as int]);
            assert(qvs.skip(idx as int).drop_first() =~= qvs.skip(idx + 1));
        }
        match qs[idx].write(buffer) {
            Ok(()) => {},
            Err(e) => {
                return Err(e);
            },
        }
        proof {
            match spec_write_question_at(qvs[idx as int], prev.pos) {
                Ok(bsq) => {
                    assert forall|j: int| 0 <= j < b0.pos implies buffer@.bytes[j]
                        == b0.bytes[j] by {
                        assert(buffer@.bytes[j] == prev.bytes[j]);
                    }
                    assert forall|j: int|
                        buffer@.pos <= j < PACKET_SIZE implies buffer@.bytes[j] == b0.bytes[j] by {
                        assert(buffer@.bytes[j] == splice(prev.bytes, prev.pos, bsq)[j]);
                        assert(buffer@.bytes[j] == prev.bytes[j]);
                    }
                    assert(buffer@.bytes.subrange(b0.pos, buffer@.pos) =~= emitted + bsq);
                    match spec_write_questions_at(qvs.skip(idx + 1), buffer@.pos) {
                        Ok(bs2) => {
                            assert(emitted + (bsq + bs2) =~= (emitted + bsq) + bs2);
                        },
                        Err(_) => {},
                    }
                },
                Err(_) => {
                    assert(false);
                },
            }
        }
        idx = idx + 1;
    }
    proof {
        assert(qvs.skip(qvs.len() as int) =~= Seq::<QuestionView>::empty());
        let emitted = buffer@.bytes.subrange(b0.pos, buffer@.pos);
        assert(emitted + Seq::<u8>::empty() =~= emitted);
        assert(buffer@.bytes =~= splice(b0.bytes, b0.pos, emitted));
    }
    Ok(())
}

/// Writes the records one after another at the cursor.
#[verifier::loop_isolation(false)]
#[verifier::rlimit(100)]
fn write_records(buffer: &mut BytePacketBuffer, rs: &Vec<Record>) -> (r: Result<(), DnsError>)
    requires
        old(buffer).wf(),
    ensures
        final(buffer).wf(),
        old(buffer)@.pos <= final(buffer)@.pos,
        forall|j: int|
            0 <= j < old(buffer)@.pos ==> final(buffer)@.bytes[j] == old(buffer)@.bytes[j],
        match spec_write_records_at(rs@.map_values(|x: Record| x@), old(buffer)@.pos) {
            Ok(bs) => {
                &&& r == Ok::<(), DnsError>(())
                &&& final(buffer)@.bytes == splice(old(buffer)@.bytes, old(buffer)@.pos, bs)
                &&& final(buffer)@.pos == old(buffer)@.pos + bs.len()
            },
            Err(e) => r == Err::<(), DnsError>(e),
        },
{
    let ghost b0 = buffer@;
    let ghost rvs = rs@.map_values(|x: Record| x@);
    let mut idx: usize = 0;
    proof {
        assert(rvs.skip(0) =~= rvs);
        assert(buffer@.bytes.subrange(b0.pos, b0.pos) =~= Seq::<u8>::empty());
        match spec_write_records_at(rvs, b0.pos) {
            Ok(bs) => {
                assert(Seq::<u8>::empty() + bs =~= bs);
            },
            Err(_) => {},
        }
    }
    while idx < rs.len()
        invariant
            buffer.wf(),
            idx <= rvs.len(),
            b0.pos <= buffer@.pos <= PACKET_SIZE,
            forall|j: int| 0 <= j < b0.pos ==> buffer@.bytes[j] == b0.bytes[j],
            forall|j: int|
                buffer@.pos <= j < PACKET_SIZE ==> buffer@.bytes[j] == b0.bytes[j],
            ({
                let emitted = buffer@.bytes.subrange(b0.pos, buffer@.pos);
                match spec_write_records_at(rvs.skip(idx as int), buffer@.pos) {
                    Ok(bs) => spec_write_records_at(rvs, b0.pos) == Ok::<Seq<u8>, DnsError>(
                        emitted + bs,
                    ),
                    Err(e) => spec_write_records_at(rvs, b0.pos) == Err::<Seq<u8>, DnsError>(e),
                }
            }),
        decreases rvs.len() - idx,
    {
        let ghost prev = buffer@;
        let ghost emitted = prev.bytes.subrange(b0.pos, prev.pos);
        proof {
            assert(rvs.skip(idx as int)[0] == rvs[idx as int]);
            assert(rvs.skip(idx as int).drop_first() =~= rvs.skip(idx + 1));
        }
        match rs[idx].write(buffer) {
            Ok(()) => {},
            Err(e) => {
                return Err(e);
            },
        }
        proof {
            match spec_write_record_at(rvs[idx as int], prev.pos) {
                Ok(bsq) => {
                    assert forall|j: int| 0 <= j < b0.pos implies buffer@.bytes[j]
                        == b0.bytes[j] by {
                        assert(buffer@.bytes[j] == prev.bytes[j]);
                    }
                    assert forall|j: int|
                        buffer@.pos <= j < PACKET_SIZE implies buffer@.bytes[j] == b0.bytes[j] by {
                        assert(buffer@.bytes[j] == splice(prev.bytes, prev.pos, bsq)[j]);
                        assert(buffer@.bytes[j] == prev.bytes[j]);
                    }
                    assert(buffer@.bytes.subrange(b0.pos, buffer@.pos) =~= emitted + bsq);
                    match spec_write_records_at(rvs.skip(idx + 1), buffer@.pos) {
                        Ok(bs2) => {
                            assert(emitted + (bsq + bs2) =~= (emitted + bsq) + bs2);
                        },
                        Err(_) => {},
                    }
                },
                Err(_) => {
                    assert(false);
                },
            }
        }
        idx = idx + 1;
    }
    proof {
        assert(rvs.skip(rvs.len() as int) =~= Seq::<RecordView>::empty());
        let emitted = buffer@.bytes.subrange(b0.pos, buffer@.pos);
        assert(emitted + Seq::<u8>::empty() =~= emitted);
        assert(buffer@.bytes =~= splice(b0.bytes, b0.pos, emitted));
    }
    Ok(())
}

impl Packet {
    /// An empty message: a zero header and four empty sections.
    pub fn new() -> (r: Packet)
        ensures
            r@.header == (Header {
                id: 0u16,
                qr: false,
                opcode: 0u8,
                aa: false,
                tc: false,
                rd: false,
                ra: false,
                z: 0u8,
                rcode: crate::rescode::ResultCode::NOERROR,
                qdcount: 0u16,
                ancount: 0u16,
                nscount: 0u16,
                arcount: 0u16,
            }),
            r@.header.wf(),
            r@.questions == Seq::<QuestionView>::empty(),
            r@.answers == Seq::<RecordView>::empty(),
            r@.authorities == Seq::<RecordView>::empty(),
            r@.resources == Seq::<RecordView>::empty(),
    {
        let p = Packet {
            header: Header::new(),
            questions: Vec::new(),
            answers: Vec::new(),
            authorities: Vec::new(),
            resources: Vec::new(),
        };
        proof {
            assert(p@.questions =~= Seq::<QuestionView>::empty());
            assert(p@.answers =~= Seq::<RecordView>::empty());
            assert(p@.authorities =~= Seq::<RecordView>::empty());
            assert(p@.resources =~= Seq::<RecordView>::empty());
        }
        p
    }

    /// Decodes a whole message from the buffer: header first, then exactly
    /// the declared number of questions and of answer, authority and
    /// additional records, in that fixed wire order, all through the shared
    /// cursor.
    pub fn from_buffer(buffer: &mut BytePacketBuffer) -> (r: Result<Packet, DnsError>)
        requires
            old(buffer).wf(),
        ensures
            final(buffer).wf(),
            final(buffer)@.bytes == old(buffer)@.bytes,
            match spec_decode_message(old(buffer)@.bytes, old(buffer)@.pos) {
                Ok(pair) => {
                    &&& r matches Ok(p) && p@ == pair.0
                    &&& final(buffer)@.pos == pair.1
                },
                Err(e) => r == Err::<Packet, DnsError>(e),
            },
    {
        let ghost buf0 = buffer@.bytes;
        let ghost pos0 = buffer@.pos;
        let mut result = Packet::new();
        result.header.read(buffer)?;

        let questions = read_questions(buffer, result.header.qdcount)?;
        result.questions = questions;

        let answers = read_records(buffer, result.header.ancount)?;
        result.answers = answers;

        let authorities = read_records(buffer, result.header.nscount)?;
        result.authorities = authorities;

        let resources = read_records(buffer, result.header.arcount)?;
        result.resources = resources;

        proof {
            match spec_decode_message(buf0, pos0) {
                Ok(pair) => {
                    assert(result@ =~= pair.0);
                },
                Err(_) => {
                    assert(false);
                },
            }
        }
        Ok(result)
    }

    /// Encodes this message into the buffer at the cursor. The four header
    /// counts are first overwritten with the live section lengths; the
    /// header as stored is never trusted as input to encoding.
    #[verifier::rlimit(100)]
    pub fn write(&mut self, buffer: &mut BytePacketBuffer) -> (r: Result<(), DnsError>)
        requires
            old(buffer).wf(),
            old(self)@.header.wf(),
            old(self)@.questions.len() <= 0xFFFF,
            old(self)@.answers.len() <= 0xFFFF,
            old(self)@.authorities.len() <= 0xFFFF,
            old(self)@.resources.len() <= 0xFFFF,
        ensures
            final(buffer).wf(),
            old(buffer)@.pos <= final(buffer)@.pos,
            forall|j: int|
                0 <= j < old(buffer)@.pos ==> final(buffer)@.bytes[j] == old(buffer)@.bytes[j],
            final(self)@ == spec_recount(old(self)@),
            match spec_encode_message_at(spec_recount(old(self)@), old(buffer)@.pos) {
                Ok(bs) => {
                    &&& r == Ok::<(), DnsError>(())
                    &&& final(buffer)@.bytes == splice(old(buffer)@.bytes, old(buffer)@.pos, bs)
                    &&& final(buffer)@.pos == old(buffer)@.pos + bs.len()
                },
                Err(e) => r == Err::<(), DnsError>(e),
            },
    {
        self.header.qdcount = self.questions.len() as u16;
        self.header.ancount = self.answers.len() as u16;
        self.header.nscount = self.authorities.len() as u16;
        self.header.arcount = self.resources.len() as u16;

        let ghost m = self@;
        let ghost b0 = buffer@;
        proof {
            assert(m =~= spec_recount(old(self)@));
            assert(crate::header::spec_header_bytes(m.header).len() == 12);
        }

        self.header.write(buffer)?;
        let ghost b1 = buffer@;

        write_questions(buffer, &self.questions)?;
        let ghost b2 = buffer@;

        write_records(buffer, &self.answers)?;
        let ghost b3 = buffer@;

        write_records(buffer, &self.authorities)?;
        let ghost b4 = buffer@;

        write_records(buffer, &self.resources)?;

        proof {
            let hb = crate::header::spec_header_bytes(m.header);
            let qb = spec_write_questions_at(m.questions, b0.pos + 12)->Ok_0;
            let ab = spec_write_records_at(m.answers, b0.pos + 12 + qb.len())->Ok_0;
            let ub = spec_write_records_at(m.authorities, b0.pos + 12 + qb.len() + ab.len())->Ok_0;
            let rb = spec_write_records_at(
                m.resources,
                b0.pos + 12 + qb.len() + ab.len() + ub.len(),
            )->Ok_0;
            crate::name::lemma_splice_extend(b0.bytes, b0.pos, hb, qb, b2.bytes);
            crate::name::lemma_splice_extend(b0.bytes, b0.pos, hb + qb, ab, b3.bytes);
            crate::name::lemma_splice_extend(b0.bytes, b0.pos, hb + qb + ab, ub, b4.bytes);
            crate::name::lemma_splice_extend(b0.bytes, b0.pos, hb + qb + ab + ub, rb, buffer@.bytes);
        }
        Ok(())
    }
}

} // verus!
