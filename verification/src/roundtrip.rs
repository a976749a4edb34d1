//! The codec's round-trip guarantees: a message written by the encoder is
//! read back unchanged by the decoder, and a compression-pointer cycle in a
//! hostile packet fails cleanly instead of looping.

use vstd::prelude::*;

use crate::header::spec_header_bytes;
use crate::name::{join_dots, labels_rt_wf, lemma_join_split, lemma_write_labels_len, lower_byte,
    lower_seq, name_end, name_rt_wf, name_scan, ptr_target, spec_write_labels_at,
    spec_write_name_at, split_on_dot, MAX_JUMPS, PACKET_SIZE};
use crate::packet::{spec_decode_message, spec_encode_message_at, spec_read_questions,
    spec_read_records, spec_write_questions_at, spec_write_records_at, PacketView};
use crate::query::lemma_qtype_roundtrip;
use crate::question::{spec_read_question, spec_write_question_at, QuestionView};
use crate::record::{spec_read_record, spec_write_record_at, RecordView};
use crate::DnsError;

verus! {

/// A question the codec can reproduce through a write and a read: a
/// round-trip-safe name, and a type in the form decoding produces.
pub open spec fn question_rt_wf(q: QuestionView) -> bool {
    &&& name_rt_wf(q.name)
    &&& q.qtype.wf()
}

/// A record the codec can reproduce through a write and a read. An unknown
/// record is written as a zero-length placeholder, so only one with no
/// retained data survives the trip, and its type code must not be the
/// address type's.
pub open spec fn record_rt_wf(rv: RecordView) -> bool {
    match rv {
        RecordView::A { domain, .. } => name_rt_wf(domain),
        RecordView::Unknown { domain, qtype, data_len, .. } => {
            &&& name_rt_wf(domain)
            &&& qtype != 1
            &&& data_len == 0
        },
    }
}

/// A message the codec can reproduce: a well-formed header whose counts
/// match the live sequence lengths, and round-trip-safe entries throughout.
pub open spec fn message_rt_wf(m: PacketView) -> bool {
    &&& m.header.wf()
    &&& m.header.qdcount == m.questions.len()
    &&& m.header.ancount == m.answers.len()
    &&& m.header.nscount == m.authorities.len()
    &&& m.header.arcount == m.resources.len()
    &&& forall|i: int| 0 <= i < m.questions.len() ==> question_rt_wf(#[trigger] m.questions[i])
    &&& forall|i: int| 0 <= i < m.answers.len() ==> record_rt_wf(#[trigger] m.answers[i])
    &&& forall|i: int| 0 <= i < m.authorities.len() ==> record_rt_wf(#[trigger] m.authorities[i])
    &&& forall|i: int| 0 <= i < m.resources.len() ==> record_rt_wf(#[trigger] m.resources[i])
}

/// One byte of a region known to hold `bs`.
proof fn lemma_byte_at(buf: Seq<u8>, pos: int, bs: Seq<u8>, k: int)
    requires
        0 <= pos,
        pos + bs.len() <= buf.len(),
        buf.subrange(pos, pos + bs.len()) == bs,
        0 <= k < bs.len(),
    ensures
        buf[pos + k] == bs[k],
{
    assert(buf.subrange(pos, pos + bs.len())[k] == bs[k]);
}

/// Lowercasing leaves a sequence of already-lowercase bytes unchanged.
proof fn lemma_lower_stable(l: Seq<u8>)
    requires
        forall|j: int| 0 <= j < l.len() ==> lower_byte(#[trigger] l[j]) == l[j],
    ensures
        lower_seq(l) == l,
{
    assert(lower_seq(l) =~= l);
}

/// Joining a nonempty well-formed label list gives a nonempty name.
proof fn lemma_join_nonempty(ls: Seq<Seq<u8>>)
    requires
        ls.len() >= 1,
        ls[0].len() >= 1,
    ensures
        join_dots(ls).len() >= 1,
{
}

/// The wire form of a well-formed label list scans back to the dot-joined
/// labels, with the cursor ending right past the terminator, whatever jump
/// budget remains.
proof fn lemma_labels_scan(buf: Seq<u8>, pos: int, ls: Seq<Seq<u8>>, bs: Seq<u8>, budget: int)
    requires
        buf.len() == PACKET_SIZE,
        labels_rt_wf(ls),
        0 <= pos,
        budget >= 0,
        spec_write_labels_at(ls, pos) == Ok::<Seq<u8>, DnsError>(bs),
        buf.subrange(pos, pos + bs.len()) == bs,
    ensures
        name_scan(buf, pos, budget) == Ok::<Seq<u8>, DnsError>(join_dots(ls)),
        name_end(buf, pos) == pos + bs.len(),
    decreases ls.len(),
{
    lemma_write_labels_len(ls, pos, bs);
    if ls.len() == 0 {
        assert(buf[pos] == bs[0]);
        assert(buf[pos] == 0);
        assert(0u8 & 0xC0 != 0xC0) by (bit_vector);
    } else {
        let l = ls[0];
        let len = l.len() as int;
        let rest = spec_write_labels_at(ls.drop_first(), pos + 1 + len)->Ok_0;
        lemma_write_labels_len(ls.drop_first(), pos + 1 + len, rest);
        assert(bs == seq![l.len() as u8] + l + rest);
        assert(buf[pos] == bs[0]);
        assert(buf[pos] == l.len() as u8);
        let b = buf[pos];
        assert(b & 0xC0 != 0xC0 && b != 0) by (bit_vector)
            requires
                1 <= b <= 63,
        ;
        assert(buf.subrange(pos + 1, pos + 1 + len) =~= l) by {
            assert forall|j: int| 0 <= j < len implies buf.subrange(pos + 1, pos + 1 + len)[j]
                == l[j] by {
                assert(buf.subrange(pos, pos + bs.len())[1 + j] == bs[1 + j]);
                assert(bs[1 + j] == l[j]);
            }
        }
        lemma_lower_stable(l);
        assert(buf.subrange(pos + 1 + len, pos + 1 + len + rest.len()) =~= rest) by {
            assert forall|j: int| 0 <= j < rest.len() implies buf.subrange(
                pos + 1 + len,
                pos + 1 + len + rest.len(),
            )[j] == rest[j] by {
                assert(buf.subrange(pos, pos + bs.len())[1 + len + j] == bs[1 + len + j]);
                assert(bs[1 + len + j] == rest[j]);
            }
        }
        lemma_labels_scan(buf, pos + 1 + len, ls.drop_first(), rest, budget);
        if ls.drop_first().len() == 0 {
            assert(join_dots(ls.drop_first()) =~= Seq::<u8>::empty());
            assert(join_dots(ls) == l);
        } else {
            assert(ls.drop_first()[0] == ls[1]);
            lemma_join_nonempty(ls.drop_first());
            assert(join_dots(ls) == l + seq![crate::name::DOT] + join_dots(ls.drop_first()));
        }
    }
}

/// A round-trip-safe name written at `pos` scans back to itself, with the
/// cursor ending right past its wire form.
pub proof fn lemma_name_roundtrip(buf: Seq<u8>, pos: int, name: Seq<u8>, bs: Seq<u8>, budget: int)
    requires
        buf.len() == PACKET_SIZE,
        name_rt_wf(name),
        0 <= pos,
        budget >= 0,
        spec_write_name_at(name, pos) == Ok::<Seq<u8>, DnsError>(bs),
        buf.subrange(pos, pos + bs.len()) == bs,
    ensures
        name_scan(buf, pos, budget) == Ok::<Seq<u8>, DnsError>(name),
        name_end(buf, pos) == pos + bs.len(),
        1 <= bs.len(),
        pos + bs.len() <= PACKET_SIZE,
{
    lemma_labels_scan(buf, pos, split_on_dot(name), bs, budget);
    lemma_join_split(name);
    lemma_write_labels_len(split_on_dot(name), pos, bs);
}

/// A round-trip-safe question written at `pos` reads back as itself.
pub proof fn lemma_question_roundtrip(buf: Seq<u8>, pos: int, q: QuestionView, bs: Seq<u8>)
    requires
        buf.len() == PACKET_SIZE,
        question_rt_wf(q),
        0 <= pos,
        spec_write_question_at(q, pos) == Ok::<Seq<u8>, DnsError>(bs),
        buf.subrange(pos, pos + bs.len()) == bs,
    ensures
        spec_read_question(buf, pos) == Ok::<(QuestionView, int), DnsError>((q, pos + bs.len())),
{
    let nb = spec_write_name_at(q.name, pos)->Ok_0;
    let t = q.qtype.spec_to_num();
    assert(bs == nb + crate::name::u16_bytes(t) + crate::name::u16_bytes(1));
    assert(buf.subrange(pos, pos + nb.len()) =~= nb) by {
        assert forall|j: int| 0 <= j < nb.len() implies buf.subrange(pos, pos + nb.len())[j]
            == nb[j] by {
            assert(buf.subrange(pos, pos + bs.len())[j] == bs[j]);
            assert(bs[j] == nb[j]);
        }
    }
    lemma_name_roundtrip(buf, pos, q.name, nb, MAX_JUMPS as int);
    let p1 = pos + nb.len();
    let nl = nb.len() as int;
    lemma_byte_at(buf, pos, bs, nl);
    lemma_byte_at(buf, pos, bs, nl + 1);
    lemma_byte_at(buf, pos, bs, nl + 2);
    lemma_byte_at(buf, pos, bs, nl + 3);
    crate::name::lemma_u16_roundtrip(t, 0, 0);
    crate::name::lemma_u16_roundtrip(1, 0, 0);
    lemma_qtype_roundtrip(q.qtype);
}

/// A round-trip-safe record written at `pos` reads back as itself.
pub proof fn lemma_record_roundtrip(buf: Seq<u8>, pos: int, rv: RecordView, bs: Seq<u8>)
    requires
        buf.len() == PACKET_SIZE,
        record_rt_wf(rv),
        0 <= pos,
        spec_write_record_at(rv, pos) == Ok::<Seq<u8>, DnsError>(bs),
        buf.subrange(pos, pos + bs.len()) == bs,
    ensures
        spec_read_record(buf, pos) == Ok::<(RecordView, int), DnsError>((rv, pos + bs.len())),
{
    match rv {
        RecordView::A { domain, addr, ttl } => {
            let nb = spec_write_name_at(domain, pos)->Ok_0;
            assert(bs == nb + crate::name::u16_bytes(1) + crate::name::u16_bytes(1)
                + crate::name::u32_bytes(ttl) + crate::name::u16_bytes(4) + seq![
                addr.a,
                addr.b,
                addr.c,
                addr.d,
            ]);
            assert(buf.subrange(pos, pos + nb.len()) =~= nb) by {
                assert forall|j: int| 0 <= j < nb.len() implies buf.subrange(pos, pos + nb.len())[j]
                    == nb[j] by {
                    assert(buf.subrange(pos, pos + bs.len())[j] == bs[j]);
                }
            }
            lemma_name_roundtrip(buf, pos, domain, nb, MAX_JUMPS as int);
            let p1 = pos + nb.len();
            let nl = nb.len() as int;
            lemma_byte_at(buf, pos, bs, nl);
            lemma_byte_at(buf, pos, bs, nl + 1);
            lemma_byte_at(buf, pos, bs, nl + 2);
            lemma_byte_at(buf, pos, bs, nl + 3);
            lemma_byte_at(buf, pos, bs, nl + 4);
            lemma_byte_at(buf, pos, bs, nl + 5);
            lemma_byte_at(buf, pos, bs, nl + 6);
            lemma_byte_at(buf, pos, bs, nl + 7);
            lemma_byte_at(buf, pos, bs, nl + 8);
            lemma_byte_at(buf, pos, bs, nl + 9);
            lemma_byte_at(buf, pos, bs, nl + 10);
            lemma_byte_at(buf, pos, bs, nl + 11);
            lemma_byte_at(buf, pos, bs, nl + 12);
            lemma_byte_at(buf, pos, bs, nl + 13);
            crate::name::lemma_u16_roundtrip(1, 0, 0);
            crate::name::lemma_u32_roundtrip(ttl, addr.a, addr.b, addr.c, addr.d);
            crate::name::lemma_u16_roundtrip(4, 0, 0);
            let raw = crate::name::u32_of(addr.a, addr.b, addr.c, addr.d);
            assert(((raw >> 24) & 0xFF) as u8 == addr.a && ((raw >> 16) & 0xFF) as u8 == addr.b && (
            (raw >> 8) & 0xFF) as u8 == addr.c && (raw & 0xFF) as u8 == addr.d) by {
                assert(crate::name::u32_bytes(raw) == seq![addr.a, addr.b, addr.c, addr.d]);
                assert(crate::name::u32_bytes(raw)[0] == addr.a);
                assert(crate::name::u32_bytes(raw)[1] == addr.b);
                assert(crate::name::u32_bytes(raw)[2] == addr.c);
                assert(crate::name::u32_bytes(raw)[3] == addr.d);
            }
        },
        RecordView::Unknown { domain, qtype, data_len, ttl } => {
            let nb = spec_write_name_at(domain, pos)->Ok_0;
            assert(bs == nb + crate::name::u16_bytes(qtype) + crate::name::u16_bytes(1)
                + crate::name::u32_bytes(ttl) + crate::name::u16_bytes(0));
            assert(buf.subrange(pos, pos + nb.len()) =~= nb) by {
                assert forall|j: int| 0 <= j < nb.len() implies buf.subrange(pos, pos + nb.len())[j]
                    == nb[j] by {
                    assert(buf.subrange(pos, pos + bs.len())[j] == bs[j]);
                }
            }
            lemma_name_roundtrip(buf, pos, domain, nb, MAX_JUMPS as int);
            let p1 = pos + nb.len();
            let nl = nb.len() as int;
            lemma_byte_at(buf, pos, bs, nl);
            lemma_byte_at(buf, pos, bs, nl + 1);
            lemma_byte_at(buf, pos, bs, nl + 2);
            lemma_byte_at(buf, pos, bs, nl + 3);
            lemma_byte_at(buf, pos, bs, nl + 4);
            lemma_byte_at(buf, pos, bs, nl + 5);
            lemma_byte_at(buf, pos, bs, nl + 6);
            lemma_byte_at(buf, pos, bs, nl + 7);
            lemma_byte_at(buf, pos, bs, nl + 8);
            lemma_byte_at(buf, pos, bs, nl + 9);
            crate::name::lemma_u16_roundtrip(qtype, 0, 0);
            crate::name::lemma_u16_roundtrip(1, 0, 0);
            crate::name::lemma_u32_roundtrip(ttl, 0, 0, 0, 0);
            crate::name::lemma_u16_roundtrip(0, 0, 0);
        },
    }
}

/// Round-trip-safe questions written one after another read back as the
/// same sequence.
proof fn lemma_questions_roundtrip(buf: Seq<u8>, pos: int, qs: Seq<QuestionView>, bs: Seq<u8>)
    requires
        buf.len() == PACKET_SIZE,
        forall|i: int| 0 <= i < qs.len() ==> question_rt_wf(#[trigger] qs[i]),
        0 <= pos,
        pos + bs.len() <= PACKET_SIZE,
        spec_write_questions_at(qs, pos) == Ok::<Seq<u8>, DnsError>(bs),
        buf.subrange(pos, pos + bs.len()) == bs,
    ensures
        spec_read_questions(buf, pos, qs.len() as int) == Ok::<(Seq<QuestionView>, int), DnsError>(
            (qs, pos + bs.len()),
        ),
    decreases qs.len(),
{
    if qs.len() == 0 {
        assert(qs =~= Seq::<QuestionView>::empty());
        assert(bs.len() == 0);
    } else {
        let b1 = spec_write_question_at(qs[0], pos)->Ok_0;
        let b2 = spec_write_questions_at(qs.drop_first(), pos + b1.len())->Ok_0;
        assert(bs == b1 + b2);
        assert(buf.subrange(pos, pos + b1.len()) =~= b1) by {
            assert forall|j: int| 0 <= j < b1.len() implies buf.subrange(pos, pos + b1.len())[j]
                == b1[j] by {
                assert(buf.subrange(pos, pos + bs.len())[j] == bs[j]);
            }
        }
        lemma_question_roundtrip(buf, pos, qs[0], b1);
        assert(buf.subrange(pos + b1.len(), pos + b1.len() + b2.len()) =~= b2) by {
            assert forall|j: int| 0 <= j < b2.len() implies buf.subrange(
                pos + b1.len(),
                pos + b1.len() + b2.len(),
            )[j] == b2[j] by {
                assert(buf.subrange(pos, pos + bs.len())[b1.len() + j] == bs[b1.len() + j]);
            }
        }
        assert(forall|i: int|
            0 <= i < qs.drop_first().len() ==> question_rt_wf(#[trigger] qs.drop_first()[i]));
        lemma_questions_roundtrip(buf, pos + b1.len(), qs.drop_first(), b2);
        assert(seq![qs[0]] + qs.drop_first() =~= qs);
    }
}

/// Round-trip-safe records written one after another read back as the same
/// sequence.
proof fn lemma_records_roundtrip(buf: Seq<u8>, pos: int, rs: Seq<RecordView>, bs: Seq<u8>)
    requires
        buf.len() == PACKET_SIZE,
        forall|i: int| 0 <= i < rs.len() ==> record_rt_wf(#[trigger] rs[i]),
        0 <= pos,
        pos + bs.len() <= PACKET_SIZE,
        spec_write_records_at(rs, pos) == Ok::<Seq<u8>, DnsError>(bs),
        buf.subrange(pos, pos + bs.len()) == bs,
    ensures
        spec_read_records(buf, pos, rs.len() as int) == Ok::<(Seq<RecordView>, int), DnsError>(
            (rs, pos + bs.len()),
        ),
    decreases rs.len(),
{
    if rs.len() == 0 {
        assert(rs =~= Seq::<RecordView>::empty());
        assert(bs.len() == 0);
    } else {
        let b1 = spec_write_record_at(rs[0], pos)->Ok_0;
        let b2 = spec_write_records_at(rs.drop_first(), pos + b1.len())->Ok_0;
        assert(bs == b1 + b2);
        assert(buf.subrange(pos, pos + b1.len()) =~= b1) by {
            assert forall|j: int| 0 <= j < b1.len() implies buf.subrange(pos, pos + b1.len())[j]
                == b1[j] by {
                assert(buf.subrange(pos, pos + bs.len())[j] == bs[j]);
            }
        }
        lemma_record_roundtrip(buf, pos, rs[0], b1);
        assert(buf.subrange(pos + b1.len(), pos + b1.len() + b2.len()) =~= b2) by {
            assert forall|j: int| 0 <= j < b2.len() implies buf.subrange(
                pos + b1.len(),
                pos + b1.len() + b2.len(),
            )[j] == b2[j] by {
                assert(buf.subrange(pos, pos + bs.len())[b1.len() + j] == bs[b1.len() + j]);
            }
        }
        assert(forall|i: int|
            0 <= i < rs.drop_first().len() ==> record_rt_wf(#[trigger] rs.drop_first()[i]));
        lemma_records_roundtrip(buf, pos + b1.len(), rs.drop_first(), b2);
        assert(seq![rs[0]] + rs.drop_first() =~= rs);
    }
}

/// Round trip of a whole message: wherever a round-trip-safe message was
/// encoded at byte offset `pos` of a packet, decoding at `pos` yields that
/// message back in all observable fields, and leaves the cursor right past
/// its wire form. The bytes after the encoding play no part.
/// The four sections of an encoded message, read back one after the other
/// from their place behind the header.
#[verifier::rlimit(100)]
proof fn lemma_sections_roundtrip(
    buf: Seq<u8>,
    pos: int,
    m: PacketView,
    bs: Seq<u8>,
    qb: Seq<u8>,
    ab: Seq<u8>,
    ub: Seq<u8>,
    rb: Seq<u8>,
)
    requires
        buf.len() == PACKET_SIZE,
        message_rt_wf(m),
        0 <= pos,
        pos + bs.len() <= PACKET_SIZE,
        buf.subrange(pos, pos + bs.len()) == bs,
        bs.len() == 12 + qb.len() + ab.len() + ub.len() + rb.len(),
        forall|j: int| 0 <= j < qb.len() ==> #[trigger] qb[j] == bs[12 + j],
        forall|j: int| 0 <= j < ab.len() ==> #[trigger] ab[j] == bs[12 + qb.len() + j],
        forall|j: int| 0 <= j < ub.len() ==> #[trigger] ub[j] == bs[12 + qb.len() + ab.len() + j],
        forall|j: int|
            0 <= j < rb.len() ==> #[trigger] rb[j] == bs[12 + qb.len() + ab.len() + ub.len() + j],
        spec_write_questions_at(m.questions, pos + 12) == Ok::<Seq<u8>, DnsError>(qb),
        spec_write_records_at(m.answers, pos + 12 + qb.len()) == Ok::<Seq<u8>, DnsError>(ab),
        spec_write_records_at(m.authorities, pos + 12 + qb.len() + ab.len()) == Ok::<
            Seq<u8>,
            DnsError,
        >(ub),
        spec_write_records_at(m.resources, pos + 12 + qb.len() + ab.len() + ub.len()) == Ok::<
            Seq<u8>,
            DnsError,
        >(rb),
    ensures
        spec_read_questions(buf, pos + 12, m.questions.len() as int) == Ok::<
            (Seq<QuestionView>, int),
            DnsError,
        >((m.questions, pos + 12 + qb.len())),
        spec_read_records(buf, pos + 12 + qb.len(), m.answers.len() as int) == Ok::<
            (Seq<RecordView>, int),
            DnsError,
        >((m.answers, pos + 12 + qb.len() + ab.len())),
        spec_read_records(buf, pos + 12 + qb.len() + ab.len(), m.authorities.len() as int) == Ok::<
            (Seq<RecordView>, int),
            DnsError,
        >((m.authorities, pos + 12 + qb.len() + ab.len() + ub.len())),
        spec_read_records(
            buf,
            pos + 12 + qb.len() + ab.len() + ub.len(),
            m.resources.len() as int,
        ) == Ok::<(Seq<RecordView>, int), DnsError>(
            (m.resources, pos + 12 + qb.len() + ab.len() + ub.len() + rb.len()),
        ),
{
    let p1 = pos + 12;
    assert(buf.subrange(p1, p1 + qb.len()) =~= qb) by {
        assert forall|j: int| 0 <= j < qb.len() implies buf.subrange(p1, p1 + qb.len())[j]
            == qb[j] by {
            assert(buf.subrange(pos, pos + bs.len())[12 + j] == bs[12 + j]);
        }
    }
    lemma_questions_roundtrip(buf, p1, m.questions, qb);

    let p2 = p1 + qb.len();
    assert(buf.subrange(p2, p2 + ab.len()) =~= ab) by {
        assert forall|j: int| 0 <= j < ab.len() implies buf.subrange(p2, p2 + ab.len())[j]
            == ab[j] by {
            assert(buf.subrange(pos, pos + bs.len())[12 + qb.len() + j] == bs[12 + qb.len() + j]);
        }
    }
    lemma_records_roundtrip(buf, p2, m.answers, ab);

    let p3 = p2 + ab.len();
    assert(buf.subrange(p3, p3 + ub.len()) =~= ub) by {
        assert forall|j: int| 0 <= j < ub.len() implies buf.subrange(p3, p3 + ub.len())[j]
            == ub[j] by {
            assert(buf.subrange(pos, pos + bs.len())[12 + qb.len() + ab.len() + j] == bs[12
                + qb.len() + ab.len() + j]);
        }
    }
    lemma_records_roundtrip(buf, p3, m.authorities, ub);

    let p4 = p3 + ub.len();
    assert(buf.subrange(p4, p4 + rb.len()) =~= rb) by {
        assert forall|j: int| 0 <= j < rb.len() implies buf.subrange(p4, p4 + rb.len())[j]
            == rb[j] by {
            assert(buf.subrange(pos, pos + bs.len())[12 + qb.len() + ab.len() + ub.len() + j] == bs[
                12 + qb.len() + ab.len() + ub.len() + j]);
        }
    }
    lemma_records_roundtrip(buf, p4, m.resources, rb);
}

/// Round trip of a whole message: wherever a round-trip-safe message was
/// encoded at byte offset `pos` of a packet, decoding at `pos` yields that
/// message back in all observable fields, and leaves the cursor right past
/// its wire form. The bytes after the encoding play no part.
#[verifier::rlimit(100)]
pub proof fn lemma_message_roundtrip(buf: Seq<u8>, pos: int, m: PacketView, bs: Seq<u8>)
    requires
        buf.len() == PACKET_SIZE,
        message_rt_wf(m),
        0 <= pos,
        pos + bs.len() <= PACKET_SIZE,
        spec_encode_message_at(m, pos) == Ok::<Seq<u8>, DnsError>(bs),
        buf.subrange(pos, pos + bs.len()) == bs,
    ensures
        spec_decode_message(buf, pos) == Ok::<(PacketView, int), DnsError>((m, pos + bs.len())),
{
    let hb = spec_header_bytes(m.header);
    let qb = spec_write_questions_at(m.questions, pos + 12)->Ok_0;
    let ab = spec_write_records_at(m.answers, pos + 12 + qb.len())->Ok_0;
    let ub = spec_write_records_at(m.authorities, pos + 12 + qb.len() + ab.len())->Ok_0;
    let rb = spec_write_records_at(m.resources, pos + 12 + qb.len() + ab.len() + ub.len())->Ok_0;
    assert(bs == hb + qb + ab + ub + rb);
    assert(hb.len() == 12);

    lemma_byte_at(buf, pos, bs, 0);
    lemma_byte_at(buf, pos, bs, 1);
    lemma_byte_at(buf, pos, bs, 2);
    lemma_byte_at(buf, pos, bs, 3);
    lemma_byte_at(buf, pos, bs, 4);
    lemma_byte_at(buf, pos, bs, 5);
    lemma_byte_at(buf, pos, bs, 6);
    lemma_byte_at(buf, pos, bs, 7);
    lemma_byte_at(buf, pos, bs, 8);
    lemma_byte_at(buf, pos, bs, 9);
    lemma_byte_at(buf, pos, bs, 10);
    lemma_byte_at(buf, pos, bs, 11);
    crate::header::lemma_header_roundtrip(m.header);

    lemma_sections_roundtrip(buf, pos, m, bs, qb, ab, ub, rb);

    match spec_decode_message(buf, pos) {
        Ok(pair) => {
            assert(pair.0 =~= m);
        },
        Err(_) => {
            assert(false);
        },
    }
}

/// A hostile packet whose compression pointers form a two-point cycle makes
/// the name scan fail with `TooManyRedirects`: the jump budget runs out, so
/// decoding can never loop or read unboundedly.
pub proof fn lemma_pointer_cycle_redirects(buf: Seq<u8>, x: int, y: int)
    requires
        buf.len() == PACKET_SIZE,
        0 <= x,
        x + 1 < PACKET_SIZE,
        0 <= y,
        y + 1 < PACKET_SIZE,
        buf[x] & 0xC0 == 0xC0,
        ptr_target(buf[x], buf[x + 1]) == y,
        buf[y] & 0xC0 == 0xC0,
        ptr_target(buf[y], buf[y + 1]) == x,
    ensures
        name_scan(buf, x, MAX_JUMPS as int) == Err::<Seq<u8>, DnsError>(
            DnsError::TooManyRedirects,
        ),
{
    assert(name_scan(buf, x, 5) == name_scan(buf, y, 4));
    assert(name_scan(buf, y, 4) == name_scan(buf, x, 3));
    assert(name_scan(buf, x, 3) == name_scan(buf, y, 2));
    assert(name_scan(buf, y, 2) == name_scan(buf, x, 1));
    assert(name_scan(buf, x, 1) == name_scan(buf, y, 0));
    assert(name_scan(buf, y, 0) == Err::<Seq<u8>, DnsError>(DnsError::TooManyRedirects));
}

} // verus!
