//! The mathematical model of domain-name encoding: dot-separated labels,
//! the length-prefixed wire form, and the compression-pointer scan that
//! decodes a (possibly compressed) name out of a packet.

use vstd::prelude::*;

use crate::DnsError;

verus! {

/// The classic UDP DNS message ceiling: every packet buffer holds exactly
/// this many bytes.
pub const PACKET_SIZE: usize = 512;

/// The most compression pointers one name decode may follow; a sixth jump
/// fails with `TooManyRedirects`, which bounds decoding cost and breaks
/// pointer cycles.
pub const MAX_JUMPS: usize = 5;

/// The label separator in a textual domain name.
pub const DOT: u8 = 46;

/// ASCII lowercasing of one byte.
pub open spec fn lower_byte(b: u8) -> u8 {
    if 65 <= b && b <= 90 {
        (b + 32) as u8
    } else {
        b
    }
}

/// ASCII lowercasing of a byte sequence.
pub open spec fn lower_seq(s: Seq<u8>) -> Seq<u8> {
    s.map_values(|b: u8| lower_byte(b))
}

/// ASCII lowercasing of one byte, executable form.
pub fn to_lower(b: u8) -> (r: u8)
    ensures
        r == lower_byte(b),
{
    if 65 <= b && b <= 90 {
        b + 32
    } else {
        b
    }
}

/// The big-endian value of two bytes.
pub open spec fn u16_of(hi: u8, lo: u8) -> u16 {
    (hi as u16) << 8 | lo as u16
}

/// The big-endian value of four bytes.
pub open spec fn u32_of(b0: u8, b1: u8, b2: u8, b3: u8) -> u32 {
    (b0 as u32) << 24 | (b1 as u32) << 16 | (b2 as u32) << 8 | b3 as u32
}

/// The two big-endian bytes of a 16-bit value.
pub open spec fn u16_bytes(val: u16) -> Seq<u8> {
    seq![(val >> 8) as u8, (val & 0xFF) as u8]
}

/// The four big-endian bytes of a 32-bit value.
pub open spec fn u32_bytes(val: u32) -> Seq<u8> {
    seq![
        ((val >> 24) & 0xFF) as u8,
        ((val >> 16) & 0xFF) as u8,
        ((val >> 8) & 0xFF) as u8,
        (val & 0xFF) as u8,
    ]
}

/// The big-endian bytes of a 16-bit value recombine to it, and two bytes
/// survive the trip through their 16-bit value.
pub proof fn lemma_u16_roundtrip(v: u16, hi: u8, lo: u8)
    ensures
        u16_of((v >> 8) as u8, (v & 0xFF) as u8) == v,
        u16_bytes(u16_of(hi, lo)) == seq![hi, lo],
{
    assert(u16_of((v >> 8) as u8, (v & 0xFF) as u8) == v) by (bit_vector);
    let x = u16_of(hi, lo);
    assert((x >> 8) as u8 == hi && (x & 0xFF) as u8 == lo) by (bit_vector)
        requires
            x == (hi as u16) << 8 | lo as u16,
    ;
    assert(u16_bytes(x) =~= seq![hi, lo]);
}

/// The big-endian bytes of a 32-bit value recombine to it, and four bytes
/// survive the trip through their 32-bit value.
pub proof fn lemma_u32_roundtrip(v: u32, b0: u8, b1: u8, b2: u8, b3: u8)
    ensures
        u32_of(
            ((v >> 24) & 0xFF) as u8,
            ((v >> 16) & 0xFF) as u8,
            ((v >> 8) & 0xFF) as u8,
            (v & 0xFF) as u8,
        ) == v,
        u32_bytes(u32_of(b0, b1, b2, b3)) == seq![b0, b1, b2, b3],
{
    assert(u32_of(
        ((v >> 24) & 0xFF) as u8,
        ((v >> 16) & 0xFF) as u8,
        ((v >> 8) & 0xFF) as u8,
        (v & 0xFF) as u8,
    ) == v) by (bit_vector);
    let x = u32_of(b0, b1, b2, b3);
    assert(((x >> 24) & 0xFF) as u8 == b0 && ((x >> 16) & 0xFF) as u8 == b1 && ((x >> 8) & 0xFF)
        as u8 == b2 && (x & 0xFF) as u8 == b3) by (bit_vector)
        requires
            x == (b0 as u32) << 24 | (b1 as u32) << 16 | (b2 as u32) << 8 | b3 as u32,
    ;
    assert(u32_bytes(x) =~= seq![b0, b1, b2, b3]);
}

/// The buffer `b` with `s` written over its bytes starting at `pos`.
pub open spec fn splice(b: Seq<u8>, pos: int, s: Seq<u8>) -> Seq<u8> {
    b.take(pos) + s + b.skip(pos + s.len())
}

/// The 14-bit target of a compression pointer whose two bytes are `len`
/// (top two bits `11`) and `b2`.
pub open spec fn ptr_target(len: u8, b2: u8) -> u16 {
    ((len as u16) ^ 0xC0) << 8 | b2 as u16
}

/// The index of the first dot in `s`, or `s.len()` if there is none.
pub open spec fn first_dot(s: Seq<u8>) -> int
    decreases s.len(),
{
    if s.len() == 0 {
        0
    } else if s[0] == DOT {
        0
    } else {
        1 + first_dot(s.drop_first())
    }
}

/// `k` is the first dot of `s` exactly when nothing before it is a dot and
/// it is a dot or the end.
pub proof fn lemma_first_dot_char(s: Seq<u8>, k: int)
    requires
        0 <= k <= s.len(),
        forall|i: int| 0 <= i < k ==> s[i] != DOT,
        k < s.len() ==> s[k] == DOT,
    ensures
        first_dot(s) == k,
    decreases s.len(),
{
    if s.len() > 0 && s[0] != DOT {
        lemma_first_dot_char(s.drop_first(), k - 1);
    }
}

proof fn lemma_first_dot_range(s: Seq<u8>)
    ensures
        0 <= first_dot(s) <= s.len(),
        forall|i: int| 0 <= i < first_dot(s) ==> s[i] != DOT,
        first_dot(s) < s.len() ==> s[first_dot(s)] == DOT,
    decreases s.len(),
{
    if s.len() > 0 && s[0] != DOT {
        lemma_first_dot_range(s.drop_first());
        assert forall|i: int| 0 <= i < first_dot(s) implies s[i] != DOT by {
            if i > 0 {
                assert(s.drop_first()[i - 1] != DOT);
            }
        }
    }
}

/// `s` split on every dot; splitting the empty sequence gives one empty
/// label, as splitting a text on a separator does.
pub open spec fn split_on_dot(s: Seq<u8>) -> Seq<Seq<u8>>
    decreases s.len(),
{
    let d = first_dot(s);
    if !(0 <= d < s.len()) {
        seq![s]
    } else {
        seq![s.take(d)] + split_on_dot(s.skip(d + 1))
    }
}

/// The labels rejoined with dots.
pub open spec fn join_dots(ls: Seq<Seq<u8>>) -> Seq<u8>
    decreases ls.len(),
{
    if ls.len() == 0 {
        Seq::empty()
    } else if ls.len() == 1 {
        ls[0]
    } else {
        ls[0] + seq![DOT] + join_dots(ls.drop_first())
    }
}

/// Splitting on dots and rejoining with dots gives back the same bytes.
pub proof fn lemma_join_split(s: Seq<u8>)
    ensures
        join_dots(split_on_dot(s)) == s,
    decreases s.len(),
{
    lemma_first_dot_range(s);
    let d = first_dot(s);
    if 0 <= d < s.len() {
        lemma_join_split(s.skip(d + 1));
        let ls = split_on_dot(s);
        assert(ls.drop_first() =~= split_on_dot(s.skip(d + 1)));
        if split_on_dot(s.skip(d + 1)).len() == 0 {
            // split always yields at least one label
            assert(false);
        }
        assert(join_dots(ls) =~= s.take(d) + seq![DOT] + s.skip(d + 1));
        assert(s.take(d) + seq![DOT] + s.skip(d + 1) =~= s);
    } else {
        assert(split_on_dot(s) == seq![s]);
    }
}

pub proof fn lemma_split_nonempty(s: Seq<u8>)
    ensures
        split_on_dot(s).len() >= 1,
    decreases s.len(),
{
}

/// A label list every decoder scan will reproduce: each label nonempty, at
/// most 63 bytes, no dots inside, and every byte already lowercase.
pub open spec fn labels_rt_wf(ls: Seq<Seq<u8>>) -> bool {
    forall|i: int|
        0 <= i < ls.len() ==> {
            &&& 1 <= (#[trigger] ls[i]).len() <= 63
            &&& forall|j: int| 0 <= j < ls[i].len() ==> lower_byte(#[trigger] ls[i][j]) == ls[i][j]
                && ls[i][j] != DOT
        }
}

/// A name whose wire encoding decodes back to itself: nonempty lowercase
/// labels of at most 63 bytes.
pub open spec fn name_rt_wf(name: Seq<u8>) -> bool {
    labels_rt_wf(split_on_dot(name))
}

/// Two partial names joined: a dot stands between them only when both are
/// nonempty.
pub open spec fn join2(a: Seq<u8>, b: Seq<u8>) -> Seq<u8> {
    if a.len() == 0 {
        b
    } else if b.len() == 0 {
        a
    } else {
        a + seq![DOT] + b
    }
}

/// What writing a label list at byte offset `pos` produces: the emitted
/// bytes, or the exact error. A label over 63 bytes is refused before
/// anything of it is written; a write reaching byte 512 overruns.
pub open spec fn spec_write_labels_at(ls: Seq<Seq<u8>>, pos: int) -> Result<Seq<u8>, DnsError>
    decreases ls.len(),
{
    if ls.len() == 0 {
        if pos + 1 <= PACKET_SIZE {
            Ok(seq![0u8])
        } else {
            Err(DnsError::BufferOverrun)
        }
    } else if ls[0].len() > 63 {
        Err(DnsError::LabelTooLong)
    } else if pos + 1 + ls[0].len() > PACKET_SIZE {
        Err(DnsError::BufferOverrun)
    } else {
        match spec_write_labels_at(ls.drop_first(), pos + 1 + ls[0].len()) {
            Ok(rest) => Ok(seq![ls[0].len() as u8] + ls[0] + rest),
            Err(e) => Err(e),
        }
    }
}

/// What writing a whole name at byte offset `pos` produces: its labels in
/// length-prefixed form, terminated by a zero length byte.
pub open spec fn spec_write_name_at(name: Seq<u8>, pos: int) -> Result<Seq<u8>, DnsError> {
    spec_write_labels_at(split_on_dot(name), pos)
}

/// Emitted label bytes always fit the packet and end with the terminator.
pub proof fn lemma_write_labels_len(ls: Seq<Seq<u8>>, pos: int, bs: Seq<u8>)
    requires
        0 <= pos,
        spec_write_labels_at(ls, pos) == Ok::<Seq<u8>, DnsError>(bs),
    ensures
        1 <= bs.len(),
        pos + bs.len() <= PACKET_SIZE,
    decreases ls.len(),
{
    if ls.len() > 0 {
        let rest = spec_write_labels_at(ls.drop_first(), pos + 1 + ls[0].len());
        lemma_write_labels_len(ls.drop_first(), pos + 1 + ls[0].len(), rest->Ok_0);
    }
}

/// Where the cursor stands after the in-line representation of a name that
/// starts at `pos`: just past the first compression pointer if there is one,
/// else just past the terminating zero byte. The sentinel 513 stands for a
/// scan that ran out of the packet.
pub open spec fn name_end(buf: Seq<u8>, pos: int) -> int
    decreases (if 0 <= pos < PACKET_SIZE {
        PACKET_SIZE - pos
    } else {
        0
    }),
{
    if !(0 <= pos < PACKET_SIZE) {
        PACKET_SIZE + 1
    } else if buf[pos] & 0xC0 == 0xC0 {
        pos + 2
    } else if buf[pos] == 0 {
        pos + 1
    } else {
        name_end(buf, pos + 1 + buf[pos])
    }
}

/// The name decoded by scanning `buf` from `pos` with `budget` compression
/// jumps still allowed, or the exact error the scan fails with: labels are
/// lowercased and joined with dots; a pointer is followed while budget
/// remains; a scan leaving the packet overruns.
pub open spec fn name_scan(buf: Seq<u8>, pos: int, budget: int) -> Result<Seq<u8>, DnsError>
    decreases
        (if budget >= 0 {
            budget
        } else {
            0
        }),
        (if 0 <= pos < PACKET_SIZE {
            PACKET_SIZE - pos
        } else {
            0
        }),
{
    if !(0 <= pos < PACKET_SIZE) {
        Err(DnsError::BufferOverrun)
    } else {
        let len = buf[pos];
        if len & 0xC0 == 0xC0 {
            if pos + 1 >= PACKET_SIZE {
                Err(DnsError::BufferOverrun)
            } else if budget <= 0 {
                Err(DnsError::TooManyRedirects)
            } else {
                name_scan(buf, ptr_target(len, buf[pos + 1]) as int, budget - 1)
            }
        } else if len == 0 {
            Ok(Seq::empty())
        } else if pos + 1 + len >= PACKET_SIZE {
            Err(DnsError::BufferOverrun)
        } else {
            let label = lower_seq(buf.subrange(pos + 1, pos + 1 + len));
            match name_scan(buf, pos + 1 + len, budget) {
                Ok(rest) => Ok(
                    if rest.len() == 0 {
                        label
                    } else {
                        label + seq![DOT] + rest
                    },
                ),
                Err(e) => Err(e),
            }
        }
    }
}

/// Two consecutive splices amount to one splice of the concatenation.
pub proof fn lemma_splice_extend(base: Seq<u8>, pos: int, s1: Seq<u8>, s2: Seq<u8>, fin: Seq<u8>)
    requires
        0 <= pos,
        pos + s1.len() + s2.len() <= base.len(),
        fin == splice(splice(base, pos, s1), pos + s1.len(), s2),
    ensures
        fin == splice(base, pos, s1 + s2),
{
    assert(fin =~= splice(base, pos, s1 + s2));
}

/// Sequences of one length that agree from `p` on also agree from any later
/// `q` on.
pub proof fn lemma_skip_agree(a: Seq<u8>, b: Seq<u8>, p: int, q: int)
    requires
        0 <= p <= q <= a.len(),
        a.len() == b.len(),
        a.skip(p) == b.skip(p),
    ensures
        a.skip(q) == b.skip(q),
{
    assert forall|k: int| 0 <= k < a.len() - q implies a.skip(q)[k] == b.skip(q)[k] by {
        assert(a.skip(p)[q - p + k] == b.skip(p)[q - p + k]);
    }
    assert(a.skip(q) =~= b.skip(q));
}

/// Wherever a scan succeeds, the in-line representation ends inside the
/// packet.
pub proof fn lemma_name_end_bound(buf: Seq<u8>, pos: int, budget: int)
    requires
        name_scan(buf, pos, budget) is Ok,
    ensures
        0 < name_end(buf, pos) <= PACKET_SIZE,
    decreases
        (if budget >= 0 {
            budget
        } else {
            0
        }),
        (if 0 <= pos < PACKET_SIZE {
            PACKET_SIZE - pos
        } else {
            0
        }),
{
    let len = buf[pos];
    if len & 0xC0 == 0xC0 || len == 0 {
    } else {
        lemma_name_end_bound(buf, pos + 1 + len, budget);
    }
}

} // verus!
