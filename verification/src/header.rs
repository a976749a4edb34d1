//! The fixed 12-byte message header: transaction id, the flag bitfield
//! (response, opcode, authoritative, truncation, recursion bits, reserved
//! bits, result code), and the four section counts.

use vstd::prelude::*;

use crate::name::{splice, u16_bytes, u16_of, PACKET_SIZE};
use crate::packet::BytePacketBuffer;
use crate::rescode::{lemma_rescode_roundtrip, ResultCode};
use crate::DnsError;

verus! {

/// The header of one message. The counts are never trusted on encode: they
/// are recomputed from the live sequences before writing.
#[derive(Copy, Clone, Debug, PartialEq, Eq, Structural)]
pub struct Header {
    pub id: u16,
    pub qr: bool,
    pub opcode: u8,
    pub aa: bool,
    pub tc: bool,
    pub rd: bool,
    pub ra: bool,
    pub z: u8,
    pub rcode: ResultCode,
    pub qdcount: u16,
    pub ancount: u16,
    pub nscount: u16,
    pub arcount: u16,
}

/// The high flags byte: response bit, 4-bit opcode, authoritative,
/// truncation and recursion-desired bits.
pub open spec fn spec_flags_hi(h: Header) -> u8 {
    (if h.qr {
        0x80u8
    } else {
        0u8
    }) | (h.opcode << 3) | (if h.aa {
        4u8
    } else {
        0u8
    }) | (if h.tc {
        2u8
    } else {
        0u8
    }) | (if h.rd {
        1u8
    } else {
        0u8
    })
}

/// The low flags byte: recursion-available bit, 3-bit reserved field, 4-bit
/// result code.
pub open spec fn spec_flags_lo(h: Header) -> u8 {
    (if h.ra {
        0x80u8
    } else {
        0u8
    }) | (h.z << 4) | h.rcode.spec_to_num()
}

/// The 12 wire bytes of a header.
pub open spec fn spec_header_bytes(h: Header) -> Seq<u8> {
    u16_bytes(h.id) + seq![spec_flags_hi(h), spec_flags_lo(h)] + u16_bytes(h.qdcount) + u16_bytes(
        h.ancount,
    ) + u16_bytes(h.nscount) + u16_bytes(h.arcount)
}

/// The header that the six 16-bit header words decode to.
pub open spec fn spec_parse_header(
    id: u16,
    flags: u16,
    qd: u16,
    an: u16,
    ns: u16,
    ar: u16,
) -> Header {
    Header {
        id,
        qr: flags & 0x8000 == 0x8000,
        opcode: ((flags & 0x7800) >> 11) as u8,
        aa: flags & 0x400 == 0x400,
        tc: flags & 0x200 == 0x200,
        rd: flags & 0x100 == 0x100,
        ra: flags & 0x80 == 0x80,
        z: ((flags & 0x70) >> 4) as u8,
        rcode: ResultCode::spec_from_num((flags & 0xf) as u8),
        qdcount: qd,
        ancount: an,
        nscount: ns,
        arcount: ar,
    }
}

/// What reading a header at byte offset `pos` yields: the twelve bytes
/// decoded, or an overrun when they would not all lie inside the packet.
pub open spec fn spec_read_header(buf: Seq<u8>, pos: int) -> Result<(Header, int), DnsError> {
    if 0 <= pos && pos + 12 <= PACKET_SIZE {
        Ok(
            (
                spec_parse_header(
                    u16_of(buf[pos], buf[pos + 1]),
                    u16_of(buf[pos + 2], buf[pos + 3]),
                    u16_of(buf[pos + 4], buf[pos + 5]),
                    u16_of(buf[pos + 6], buf[pos + 7]),
                    u16_of(buf[pos + 8], buf[pos + 9]),
                    u16_of(buf[pos + 10], buf[pos + 11]),
                ),
                pos + 12,
            ),
        )
    } else {
        Err(DnsError::BufferOverrun)
    }
}

impl Header {
    /// A header whose bit fields hold only the widths the wire format gives
    /// them: 4-bit opcode, 3-bit reserved field, 4-bit result code.
    pub open spec fn wf(self) -> bool {
        &&& self.opcode <= 15
        &&& self.z <= 7
        &&& self.rcode.wf()
    }

    /// A header with every field zero or clear.
    pub fn new() -> (r: Header)
        ensures
            r == (Header {
                id: 0u16,
                qr: false,
                opcode: 0u8,
                aa: false,
                tc: false,
                rd: false,
                ra: false,
                z: 0u8,
                rcode: ResultCode::NOERROR,
                qdcount: 0u16,
                ancount: 0u16,
                nscount: 0u16,
                arcount: 0u16,
            }),
            r.wf(),
    {
        Header {
            id: 0,
            qr: false,
            opcode: 0,
            aa: false,
            tc: false,
            rd: false,
            ra: false,
            z: 0,
            rcode: ResultCode::NOERROR,
            qdcount: 0,
            ancount: 0,
            nscount: 0,
            arcount: 0,
        }
    }

    /// Reads the 12 header bytes at the cursor, unpacking the flag bitfield
    /// by its fixed bit positions.
    pub fn read(&mut self, buffer: &mut BytePacketBuffer) -> (r: Result<(), DnsError>)
        requires
            old(buffer).wf(),
        ensures
            final(buffer).wf(),
            final(buffer)@.bytes == old(buffer)@.bytes,
            match spec_read_header(old(buffer)@.bytes, old(buffer)@.pos) {
                Ok(pair) => {
                    &&& r == Ok::<(), DnsError>(())
                    &&& *final(self) == pair.0
                    &&& final(self).wf()
                    &&& final(buffer)@.pos == pair.1
                },
                Err(e) => r == Err::<(), DnsError>(e),
            },
    {
        self.id = buffer.read_u16()?;

        let flags = buffer.read_u16()?;

        self.qr = (flags & 0x8000) == 0x8000;
        self.opcode = ((flags & 0x7800) >> 11) as u8;
        self.aa = (flags & 0x400) == 0x400;
        self.tc = (flags & 0x200) == 0x200;
        self.rd = (flags & 0x100) == 0x100;

        self.ra = (flags & 0x80) == 0x80;
        self.z = ((flags & 0x70) >> 4) as u8;
        let rcnum = (flags & 0xf) as u8;
        proof {
            assert(((flags & 0x7800) >> 11) <= 15 && ((flags & 0x70) >> 4) <= 7 && (flags & 0xf)
                <= 15) by (bit_vector);
        }
        self.rcode = match ResultCode::from_num(rcnum) {
            Ok(c) => c,
            Err(e) => {
                return Err(e);
            },
        };

        self.qdcount = buffer.read_u16()?;
        self.ancount = buffer.read_u16()?;
        self.nscount = buffer.read_u16()?;
        self.arcount = buffer.read_u16()?;

        Ok(())
    }

    /// Writes the 12 header bytes at the cursor, packing the flag bitfield
    /// into its fixed bit positions.
    #[verifier::rlimit(80)]
    pub fn write(&self, buffer: &mut BytePacketBuffer) -> (r: Result<(), DnsError>)
        requires
            old(buffer).wf(),
            self.wf(),
        ensures
            final(buffer).wf(),
            old(buffer)@.pos <= final(buffer)@.pos,
            final(buffer)@.bytes.subrange(0, old(buffer)@.pos) == old(buffer)@.bytes.subrange(
                0,
                old(buffer)@.pos,
            ),
            forall|j: int|
                0 <= j < old(buffer)@.pos ==> final(buffer)@.bytes[j] == old(buffer)@.bytes[j],
            if old(buffer)@.pos + 12 <= PACKET_SIZE {
                &&& r == Ok::<(), DnsError>(())
                &&& final(buffer)@.bytes == splice(
                    old(buffer)@.bytes,
                    old(buffer)@.pos,
                    spec_header_bytes(*self),
                )
                &&& final(buffer)@.pos == old(buffer)@.pos + 12
            } else {
                r == Err::<(), DnsError>(DnsError::BufferOverrun)
            },
    {
        let ghost b0 = buffer@;

        buffer.write_u16(self.id)?;
        let ghost b1 = buffer@;

        let hi: u8 = (if self.qr {
            0x80u8
        } else {
            0u8
        }) | (self.opcode << 3) | (if self.aa {
            4u8
        } else {
            0u8
        }) | (if self.tc {
            2u8
        } else {
            0u8
        }) | (if self.rd {
            1u8
        } else {
            0u8
        });
        buffer.write_u8(hi)?;
        let ghost b2 = buffer@;
        let lo: u8 = (if self.ra {
            0x80u8
        } else {
            0u8
        }) | (self.z << 4) | self.rcode.to_num();
        buffer.write_u8(lo)?;
        let ghost b3 = buffer@;
        proof {
            assert(b3.bytes =~= splice(b0.bytes, b0.pos, u16_bytes(self.id) + seq![hi, lo]));
        }

        buffer.write_u16(self.qdcount)?;
        let ghost b4 = buffer@;
        proof {
            assert(b4.bytes =~= splice(
                b0.bytes,
                b0.pos,
                u16_bytes(self.id) + seq![hi, lo] + u16_bytes(self.qdcount),
            ));
        }
        buffer.write_u16(self.ancount)?;
        let ghost b5 = buffer@;
        proof {
            assert(b5.bytes =~= splice(
                b0.bytes,
                b0.pos,
                u16_bytes(self.id) + seq![hi, lo] + u16_bytes(self.qdcount) + u16_bytes(
                    self.ancount,
                ),
            ));
        }
        buffer.write_u16(self.nscount)?;
        let ghost b6 = buffer@;
        proof {
            assert(b6.bytes =~= splice(
                b0.bytes,
                b0.pos,
                u16_bytes(self.id) + seq![hi, lo] + u16_bytes(self.qdcount) + u16_bytes(
                    self.ancount,
                ) + u16_bytes(self.nscount),
            ));
        }
        buffer.write_u16(self.arcount)?;
        proof {
            assert(buffer@.bytes =~= splice(b0.bytes, b0.pos, spec_header_bytes(*self)));
            assert(buffer@.bytes.subrange(0, b0.pos) =~= b0.bytes.subrange(0, b0.pos));
        }

        Ok(())
    }
}

/// The bit-level fact behind the header round trip: packing fields of the
/// right widths into the two flag bytes and re-extracting them by mask and
/// shift gives the fields back.
proof fn lemma_flags_roundtrip(qr: u8, opcode: u8, aa: u8, tc: u8, rd: u8, ra: u8, z: u8, rc: u8)
    requires
        qr <= 1,
        opcode <= 15,
        aa <= 1,
        tc <= 1,
        rd <= 1,
        ra <= 1,
        z <= 7,
        rc <= 15,
    ensures
        ({
            let hi = (qr << 7) | (opcode << 3) | (aa << 2) | (tc << 1) | rd;
            let lo = (ra << 7) | (z << 4) | rc;
            let flags = (hi as u16) << 8 | lo as u16;
            &&& (flags & 0x8000 == 0x8000) == (qr == 1)
            &&& ((flags & 0x7800) >> 11) as u8 == opcode
            &&& (flags & 0x400 == 0x400) == (aa == 1)
            &&& (flags & 0x200 == 0x200) == (tc == 1)
            &&& (flags & 0x100 == 0x100) == (rd == 1)
            &&& (flags & 0x80 == 0x80) == (ra == 1)
            &&& ((flags & 0x70) >> 4) as u8 == z
            &&& (flags & 0xf) as u8 == rc
        }),
{
    let hi = (qr << 7) | (opcode << 3) | (aa << 2) | (tc << 1) | rd;
    let lo = (ra << 7) | (z << 4) | rc;
    let flags = (hi as u16) << 8 | lo as u16;
    assert((flags & 0x8000 == 0x8000) == (qr == 1) && ((flags & 0x7800) >> 11) as u8 == opcode && (
    flags & 0x400 == 0x400) == (aa == 1) && (flags & 0x200 == 0x200) == (tc == 1) && (flags & 0x100
        == 0x100) == (rd == 1) && (flags & 0x80 == 0x80) == (ra == 1) && ((flags & 0x70) >> 4) as u8
        == z && (flags & 0xf) as u8 == rc) by (bit_vector)
        requires
            qr <= 1,
            opcode <= 15,
            aa <= 1,
            tc <= 1,
            rd <= 1,
            ra <= 1,
            z <= 7,
            rc <= 15,
            hi == (qr << 7) | (opcode << 3) | (aa << 2) | (tc << 1) | rd,
            lo == (ra << 7) | (z << 4) | rc,
            flags == (hi as u16) << 8 | lo as u16,
    ;
}

/// A well-formed header survives the trip through its 12 wire bytes.
pub proof fn lemma_header_roundtrip(h: Header)
    requires
        h.wf(),
    ensures
        ({
            let bs = spec_header_bytes(h);
            &&& bs.len() == 12
            &&& spec_parse_header(
                u16_of(bs[0], bs[1]),
                u16_of(bs[2], bs[3]),
                u16_of(bs[4], bs[5]),
                u16_of(bs[6], bs[7]),
                u16_of(bs[8], bs[9]),
                u16_of(bs[10], bs[11]),
            ) == h
        }),
{
    let bs = spec_header_bytes(h);
    let qr: u8 = if h.qr {
        1
    } else {
        0
    };
    let aa: u8 = if h.aa {
        1
    } else {
        0
    };
    let tc: u8 = if h.tc {
        1
    } else {
        0
    };
    let rd: u8 = if h.rd {
        1
    } else {
        0
    };
    let ra: u8 = if h.ra {
        1
    } else {
        0
    };
    let rc = h.rcode.spec_to_num();
    lemma_rescode_roundtrip(h.rcode);
    assert(spec_flags_hi(h) == (qr << 7) | (h.opcode << 3) | (aa << 2) | (tc << 1) | rd) by {
        assert((qr << 7) == if qr == 1 {
            0x80u8
        } else {
            0u8
        } && (aa << 2) == if aa == 1 {
            4u8
        } else {
            0u8
        } && (tc << 1) == if tc == 1 {
            2u8
        } else {
            0u8
        }) by (bit_vector)
            requires
                qr <= 1,
                aa <= 1,
                tc <= 1,
        ;
    }
    assert(spec_flags_lo(h) == (ra << 7) | (h.z << 4) | rc) by {
        assert((ra << 7) == if ra == 1 {
            0x80u8
        } else {
            0u8
        }) by (bit_vector)
            requires
                ra <= 1,
        ;
    }
    lemma_flags_roundtrip(qr, h.opcode, aa, tc, rd, ra, h.z, rc);
    crate::name::lemma_u16_roundtrip(h.id, spec_flags_hi(h), spec_flags_lo(h));
    crate::name::lemma_u16_roundtrip(h.qdcount, 0, 0);
    crate::name::lemma_u16_roundtrip(h.ancount, 0, 0);
    crate::name::lemma_u16_roundtrip(h.nscount, 0, 0);
    crate::name::lemma_u16_roundtrip(h.arcount, 0, 0);
    assert(bs[2] == spec_flags_hi(h) && bs[3] == spec_flags_lo(h));
    assert(u16_of(bs[0], bs[1]) == h.id && u16_of(bs[4], bs[5]) == h.qdcount && u16_of(bs[6], bs[7])
        == h.ancount && u16_of(bs[8], bs[9]) == h.nscount && u16_of(bs[10], bs[11]) == h.arcount);
}

} // verus!
