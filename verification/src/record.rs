//! A resource record: an address record carried in full, or any other
//! record type decoded as a passthrough holder whose data is skipped.

use vstd::prelude::*;

use crate::name::{lemma_u32_roundtrip, name_end, name_scan, spec_write_name_at, splice, u16_bytes,
    u32_bytes, MAX_JUMPS, PACKET_SIZE};
use crate::packet::{spec_read_u16_at, spec_read_u32_at, BytePacketBuffer};
use crate::query::QueryType;
use crate::DnsError;

verus! {

/// An IPv4 address as its four octets, most significant first.
#[derive(Copy, Clone, Debug, PartialEq, Eq, Hash, PartialOrd, Ord, Structural)]
pub struct Ipv4Address {
    pub a: u8,
    pub b: u8,
    pub c: u8,
    pub d: u8,
}

/// The mathematical content of a record.
#[verifier::ext_equal]
pub enum RecordView {
    Unknown { domain: Seq<u8>, qtype: u16, data_len: u16, ttl: u32 },
    A { domain: Seq<u8>, addr: Ipv4Address, ttl: u32 },
}

/// One entry of an answer, authority or additional section. The `Unknown`
/// variant is a decode-only holder: its record data was skipped on read,
/// and writing it emits a zero-length placeholder.
#[derive(Debug, Clone, PartialEq, Eq, Hash, PartialOrd, Ord)]
pub enum Record {
    Unknown { domain: Vec<u8>, qtype: u16, data_len: u16, ttl: u32 },
    A { domain: Vec<u8>, addr: Ipv4Address, ttl: u32 },
}

impl View for Record {
    type V = RecordView;

    open spec fn view(&self) -> RecordView {
        match self {
            Record::Unknown { domain, qtype, data_len, ttl } => RecordView::Unknown {
                domain: domain@,
                qtype: *qtype,
                data_len: *data_len,
                ttl: *ttl,
            },
            Record::A { domain, addr, ttl } => RecordView::A {
                domain: domain@,
                addr: *addr,
                ttl: *ttl,
            },
        }
    }
}

/// What reading a record at byte offset `pos` yields: name, type, class
/// (discarded), ttl and data length; then an address for the address type,
/// or a skip of exactly the declared data length for every other type.
pub open spec fn spec_read_record(buf: Seq<u8>, pos: int) -> Result<(RecordView, int), DnsError> {
    match name_scan(buf, pos, MAX_JUMPS as int) {
        Err(e) => Err(e),
        Ok(domain) => {
            let p1 = name_end(buf, pos);
            match spec_read_u16_at(buf, p1) {
                Err(e) => Err(e),
                Ok((qtype_num, p2)) => match spec_read_u16_at(buf, p2) {
                    Err(e) => Err(e),
                    Ok((_class, p3)) => match spec_read_u32_at(buf, p3) {
                        Err(e) => Err(e),
                        Ok((ttl, p4)) => match spec_read_u16_at(buf, p4) {
                            Err(e) => Err(e),
                            Ok((data_len, p5)) => if qtype_num == 1 {
                                match spec_read_u32_at(buf, p5) {
                                    Err(e) => Err(e),
                                    Ok((raw, p6)) => Ok(
                                        (
                                            RecordView::A {
                                                domain,
                                                addr: Ipv4Address {
                                                    a: ((raw >> 24) & 0xFF) as u8,
                                                    b: ((raw >> 16) & 0xFF) as u8,
                                                    c: ((raw >> 8) & 0xFF) as u8,
                                                    d: (raw & 0xFF) as u8,
                                                },
                                                ttl,
                                            },
                                            p6,
                                        ),
                                    ),
                                }
                            } else {
                                if p5 + data_len <= PACKET_SIZE {
                                    Ok(
                                        (
                                            RecordView::Unknown {
                                                domain,
                                                qtype: qtype_num,
                                                data_len,
                                                ttl,
                                            },
                                            p5 + data_len,
                                        ),
                                    )
                                } else {
                                    Err(DnsError::BufferOverrun)
                                }
                            },
                        },
                    },
                },
            }
        },
    }
}

/// What writing a record at byte offset `pos` emits. An address record
/// carries type 1, class 1, its ttl, data length 4 and the four octets; an
/// unknown record is written as its header with data length zero, a
/// placeholder for data that was never retained.
pub open spec fn spec_write_record_at(rv: RecordView, pos: int) -> Result<Seq<u8>, DnsError> {
    match rv {
        RecordView::A { domain, addr, ttl } => match spec_write_name_at(domain, pos) {
            Err(e) => Err(e),
            Ok(nb) => if pos + nb.len() + 14 <= PACKET_SIZE {
                Ok(
                    nb + u16_bytes(1) + u16_bytes(1) + u32_bytes(ttl) + u16_bytes(4) + seq![
                        addr.a,
                        addr.b,
                        addr.c,
                        addr.d,
                    ],
                )
            } else {
                Err(DnsError::BufferOverrun)
            },
        },
        RecordView::Unknown { domain, qtype, data_len: _, ttl } => match spec_write_name_at(
            domain,
            pos,
        ) {
            Err(e) => Err(e),
            Ok(nb) => if pos + nb.len() + 10 <= PACKET_SIZE {
                Ok(nb + u16_bytes(qtype) + u16_bytes(1) + u32_bytes(ttl) + u16_bytes(0))
            } else {
                Err(DnsError::BufferOverrun)
            },
        },
    }
}

impl Record {
    /// Reads one record at the cursor. The address type is decoded in full;
    /// any other type code has its record data skipped, not interpreted,
    /// and is preserved as the `Unknown` holder.
    pub fn read(buffer: &mut BytePacketBuffer) -> (r: Result<Record, DnsError>)
        requires
            old(buffer).wf(),
        ensures
            final(buffer).wf(),
            final(buffer)@.bytes == old(buffer)@.bytes,
            match spec_read_record(old(buffer)@.bytes, old(buffer)@.pos) {
                Ok(pair) => {
                    &&& r matches Ok(rec) && rec@ == pair.0
                    &&& final(buffer)@.pos == pair.1
                },
                Err(e) => r == Err::<Record, DnsError>(e),
            },
    {
        let mut domain: Vec<u8> = Vec::new();
        buffer.read_qname(&mut domain)?;
        proof {
            assert(Seq::<u8>::empty() + domain@ =~= domain@);
        }

        let qtype_num = buffer.read_u16()?;
        let qtype = QueryType::from_num(qtype_num);

        let _ = buffer.read_u16()?;

        let ttl = buffer.read_u32()?;

        let data_len = buffer.read_u16()?;

        match qtype {
            QueryType::A => {
                let raw_addr = buffer.read_u32()?;
                let addr = Ipv4Address {
                    a: ((raw_addr >> 24) & 0xFF) as u8,
                    b: ((raw_addr >> 16) & 0xFF) as u8,
                    c: ((raw_addr >> 8) & 0xFF) as u8,
                    d: (raw_addr & 0xFF) as u8,
                };

                Ok(Record::A { domain, addr, ttl })
            },
            QueryType::UNKNOWN(_) => {
                buffer.step(data_len as usize)?;

                Ok(Record::Unknown { domain, qtype: qtype_num, data_len, ttl })
            },
        }
    }

    /// Writes this record at the cursor; an unknown record becomes a
    /// zero-length placeholder, since its data was never retained.
    #[verifier::rlimit(100)]
    pub fn write(&self, buffer: &mut BytePacketBuffer) -> (r: Result<(), DnsError>)
        requires
            old(buffer).wf(),
        ensures
            final(buffer).wf(),
            old(buffer)@.pos <= final(buffer)@.pos,
            forall|j: int|
                0 <= j < old(buffer)@.pos ==> final(buffer)@.bytes[j] == old(buffer)@.bytes[j],
            match spec_write_record_at(self@, old(buffer)@.pos) {
                Ok(bs) => {
                    &&& r == Ok::<(), DnsError>(())
                    &&& final(buffer)@.bytes == splice(old(buffer)@.bytes, old(buffer)@.pos, bs)
                    &&& final(buffer)@.pos == old(buffer)@.pos + bs.len()
                },
                Err(e) => r == Err::<(), DnsError>(e),
            },
    {
        let ghost b0 = buffer@;
        match self {
            Record::A { domain, addr, ttl } => {
                buffer.write_qname(domain.as_slice())?;
                buffer.write_u16(1)?;
                let ghost b2 = buffer@;
                buffer.write_u16(1)?;
                let ghost b3 = buffer@;
                buffer.write_u32(*ttl)?;
                let ghost b4 = buffer@;
                buffer.write_u16(4)?;
                let ghost b5 = buffer@;
                let raw: u32 = ((addr.a as u32) << 24) | ((addr.b as u32) << 16) | ((addr.c as u32)
                    << 8) | (addr.d as u32);
                buffer.write_u32(raw)?;
                proof {
                    lemma_u32_roundtrip(0, addr.a, addr.b, addr.c, addr.d);
                    match spec_write_name_at(domain@, b0.pos) {
                        Ok(nb) => {
                            assert(b2.bytes =~= splice(b0.bytes, b0.pos, nb + u16_bytes(1)));
                            assert(b3.bytes =~= splice(
                                b0.bytes,
                                b0.pos,
                                nb + u16_bytes(1) + u16_bytes(1),
                            ));
                            assert(b4.bytes =~= splice(
                                b0.bytes,
                                b0.pos,
                                nb + u16_bytes(1) + u16_bytes(1) + u32_bytes(*ttl),
                            ));
                            assert(b5.bytes =~= splice(
                                b0.bytes,
                                b0.pos,
                                nb + u16_bytes(1) + u16_bytes(1) + u32_bytes(*ttl) + u16_bytes(4),
                            ));
                            assert(buffer@.bytes =~= splice(
                                b0.bytes,
                                b0.pos,
                                nb + u16_bytes(1) + u16_bytes(1) + u32_bytes(*ttl) + u16_bytes(4)
                                    + seq![addr.a, addr.b, addr.c, addr.d],
                            ));
                        },
                        Err(_) => {
                            assert(false);
                        },
                    }
                }
                Ok(())
            },
            Record::Unknown { domain, qtype, data_len: _, ttl } => {
                buffer.write_qname(domain.as_slice())?;
                buffer.write_u16(*qtype)?;
                let ghost b2 = buffer@;
                buffer.write_u16(1)?;
                let ghost b3 = buffer@;
                buffer.write_u32(*ttl)?;
                let ghost b4 = buffer@;
                buffer.write_u16(0)?;
                proof {
                    match spec_write_name_at(domain@, b0.pos) {
                        Ok(nb) => {
                            assert(b2.bytes =~= splice(b0.bytes, b0.pos, nb + u16_bytes(*qtype)));
                            assert(b3.bytes =~= splice(
                                b0.bytes,
                                b0.pos,
                                nb + u16_bytes(*qtype) + u16_bytes(1),
                            ));
                            assert(b4.bytes =~= splice(
                                b0.bytes,
                                b0.pos,
                                nb + u16_bytes(*qtype) + u16_bytes(1) + u32_bytes(*ttl),
                            ));
                            assert(buffer@.bytes =~= splice(
                                b0.bytes,
                                b0.pos,
                                nb + u16_bytes(*qtype) + u16_bytes(1) + u32_bytes(*ttl)
                                    + u16_bytes(0),
                            ));
                        },
                        Err(_) => {
                            assert(false);
                        },
                    }
                }
                Ok(())
            },
        }
    }
}

} // verus!
