//! The recursive packet grammar: parsing a bit stream into a tree of typed
//! packets, and evaluating that tree as an arithmetic expression.
//!
//! A packet starts with a 3-bit version and a 3-bit type id.  Type id 4 is a
//! literal whose value follows as a varint.  Every other type id is an
//! operator: a 1-bit length mode selects either a 15-bit total bit length or
//! an 11-bit sub-packet count, and the sub-packets follow, recursively.

use vstd::prelude::*;

verus! {

use crate::bits::BitReader;
use crate::bits::bits_value;
use crate::varint::Varint;
use crate::varint::spec_varint;

broadcast use vstd::std_specs::vec::group_vec_axioms, vstd::seq::group_seq_axioms;

/// The operator selected by a non-literal type id.
#[derive(Debug, Clone, Copy, PartialEq, Eq, Structural)]
pub enum OpKind {
    Sum,
    Product,
    Minimum,
    Maximum,
    Greater,
    Less,
    Equal,
}

/// What a packet is: a literal value, or an operator over sub-packets.
#[derive(Debug)]
pub enum PacketKind {
    Sum(Vec<Packet>),
    Product(Vec<Packet>),
    Minimum(Vec<Packet>),
    Maximum(Vec<Packet>),
    Literal(Varint),
    Greater(Vec<Packet>),
    Less(Vec<Packet>),
    Equal(Vec<Packet>),
}

/// One decoded packet: a version and a kind, never mutated after decode.
#[derive(Debug)]
pub struct Packet {
    version: u8,
    kind: PacketKind,
}

/// The mathematical shape of a packet kind.
pub enum KindModel {
    Literal { value: int, groups: int },
    Operator { op: OpKind, subs: Seq<PacketModel> },
}

/// The mathematical shape of a packet.
pub struct PacketModel {
    pub version: int,
    pub kind: KindModel,
}

/// The model of an executable packet tree.
pub closed spec fn packet_model(p: Packet) -> PacketModel
    decreases p,
{
    PacketModel {
        version: p.version as int,
        kind: match p.kind {
            PacketKind::Literal(v) => KindModel::Literal { value: v.0 as int, groups: v.1 as int },
            PacketKind::Sum(subs) => KindModel::Operator {
                op: OpKind::Sum,
                subs: packets_model(subs@),
            },
            PacketKind::Product(subs) => KindModel::Operator {
                op: OpKind::Product,
                subs: packets_model(subs@),
            },
            PacketKind::Minimum(subs) => KindModel::Operator {
                op: OpKind::Minimum,
                subs: packets_model(subs@),
            },
            PacketKind::Maximum(subs) => KindModel::Operator {
                op: OpKind::Maximum,
                subs: packets_model(subs@),
            },
            PacketKind::Greater(subs) => KindModel::Operator {
                op: OpKind::Greater,
                subs: packets_model(subs@),
            },
            PacketKind::Less(subs) => KindModel::Operator {
                op: OpKind::Less,
                subs: packets_model(subs@),
            },
            PacketKind::Equal(subs) => KindModel::Operator {
                op: OpKind::Equal,
                subs: packets_model(subs@),
            },
        },
    }
}

/// The models of a sequence of packets, in order.
pub closed spec fn packets_model(s: Seq<Packet>) -> Seq<PacketModel>
    decreases s,
{
    if s.len() == 0 {
        Seq::empty()
    } else {
        seq![packet_model(s[0])] + packets_model(s.drop_first())
    }
}

pub proof fn lemma_packets_model_len(s: Seq<Packet>)
    ensures
        packets_model(s).len() == s.len(),
    decreases s,
{
    if s.len() > 0 {
        lemma_packets_model_len(s.drop_first());
    }
}

pub proof fn lemma_packets_model_index(s: Seq<Packet>, i: int)
    requires
        0 <= i < s.len(),
    ensures
        packets_model(s).len() == s.len(),
        packets_model(s)[i] == packet_model(s[i]),
    decreases s,
{
    lemma_packets_model_len(s);
    if i > 0 {
        lemma_packets_model_index(s.drop_first(), i - 1);
    }
}

pub proof fn lemma_packets_model_push(s: Seq<Packet>, p: Packet)
    ensures
        packets_model(s.push(p)) == packets_model(s) + seq![packet_model(p)],
{
    lemma_packets_model_len(s);
    lemma_packets_model_len(s.push(p));
    assert forall|i: int| 0 <= i < s.len() + 1 implies packets_model(s.push(p))[i] == (
    packets_model(s) + seq![packet_model(p)])[i] by {
        lemma_packets_model_index(s.push(p), i);
        if i < s.len() {
            lemma_packets_model_index(s, i);
        }
    }
    assert(packets_model(s.push(p)) =~= packets_model(s) + seq![packet_model(p)]);
}

/// The operator denoted by a non-literal type id.
pub open spec fn op_of(type_id: int) -> OpKind
    recommends
        0 <= type_id <= 7,
        type_id != 4,
{
    if type_id == 0 {
        OpKind::Sum
    } else if type_id == 1 {
        OpKind::Product
    } else if type_id == 2 {
        OpKind::Minimum
    } else if type_id == 3 {
        OpKind::Maximum
    } else if type_id == 5 {
        OpKind::Greater
    } else if type_id == 6 {
        OpKind::Less
    } else {
        OpKind::Equal
    }
}

/// The packet starting at bit offset `off`, with the offset just past it, if
/// one parses there.
pub open spec fn parse_packet(buf: Seq<u8>, off: int) -> Option<(PacketModel, int)>
    decreases 8 * buf.len() - off, 0int,
{
    if off < 0 || off + 6 > 8 * buf.len() {
        None
    } else {
        let version = bits_value(buf, off, 3);
        let type_id = bits_value(buf, off + 3, 3);
        if type_id == 4 {
            match spec_varint(buf, off + 6) {
                None => None,
                Some((value, groups)) => Some(
                    (
                        PacketModel { version, kind: KindModel::Literal { value, groups } },
                        off + 6 + 5 * groups,
                    ),
                ),
            }
        } else if off + 7 > 8 * buf.len() {
            None
        } else {
            let length_mode = bits_value(buf, off + 6, 1);
            if length_mode == 0 {
                if off + 22 > 8 * buf.len() {
                    None
                } else {
                    let total = bits_value(buf, off + 7, 15);
                    match parse_packets_until(buf, off + 22, off + 22 + total) {
                        None => None,
                        Some((subs, end)) => Some(
                            (
                                PacketModel {
                                    version,
                                    kind: KindModel::Operator { op: op_of(type_id), subs },
                                },
                                end,
                            ),
                        ),
                    }
                }
            } else {
                if off + 18 > 8 * buf.len() {
                    None
                } else {
                    let count = bits_value(buf, off + 7, 11);
                    match parse_packets_count(buf, off + 18, count) {
                        None => None,
                        Some((subs, end)) => Some(
                            (
                                PacketModel {
                                    version,
                                    kind: KindModel::Operator { op: op_of(type_id), subs },
                                },
                                end,
                            ),
                        ),
                    }
                }
            }
        }
    }
}

/// Packets parsed one after another from `off` until the cursor reaches or
/// passes `end`, with the offset after the last one.
pub open spec fn parse_packets_until(buf: Seq<u8>, off: int, end: int) -> Option<
    (Seq<PacketModel>, int),
>
    decreases 8 * buf.len() - off, 1int,
{
    if off >= end {
        Some((Seq::empty(), off))
    } else {
        match parse_packet(buf, off) {
            None => None,
            Some((m, off2)) => if off < off2 <= 8 * buf.len() {
                match parse_packets_until(buf, off2, end) {
                    None => None,
                    Some((rest, fin)) => Some((seq![m] + rest, fin)),
                }
            } else {
                None
            },
        }
    }
}

/// Exactly `n` packets parsed one after another from `off`, with the offset
/// after the last one.
pub open spec fn parse_packets_count(buf: Seq<u8>, off: int, n: int) -> Option<
    (Seq<PacketModel>, int),
>
    decreases 8 * buf.len() - off, 1int,
{
    if n <= 0 {
        Some((Seq::empty(), off))
    } else {
        match parse_packet(buf, off) {
            None => None,
            Some((m, off2)) => if off < off2 <= 8 * buf.len() {
                match parse_packets_count(buf, off2, n - 1) {
                    None => None,
                    Some((rest, fin)) => Some((seq![m] + rest, fin)),
                }
            } else {
                None
            },
        }
    }
}

/// The fewest bits any packet can occupy: a 6-bit header and one 5-bit
/// varint group.
pub open spec fn min_packet_bits() -> int {
    11
}

/// The top-level packets of the stream.  Parsing stops cleanly once fewer
/// bits remain than the smallest packet needs; a packet that starts but
/// cannot finish makes the whole stream fail.
pub open spec fn parse_stream(buf: Seq<u8>, off: int) -> Option<Seq<PacketModel>>
    decreases 8 * buf.len() - off, 2int,
{
    if off < 0 {
        None
    } else if off + min_packet_bits() > 8 * buf.len() {
        Some(Seq::empty())
    } else {
        match parse_packet(buf, off) {
            None => None,
            Some((m, off2)) => if off < off2 <= 8 * buf.len() {
                match parse_stream(buf, off2) {
                    None => None,
                    Some(rest) => Some(seq![m] + rest),
                }
            } else {
                None
            },
        }
    }
}

/// A parsed packet occupies at least `min_packet_bits` and ends within the
/// buffer.
pub proof fn lemma_parse_packet_advances(buf: Seq<u8>, off: int)
    ensures
        parse_packet(buf, off) matches Some((m, end)) ==> off + min_packet_bits() <= end <= 8
            * buf.len(),
    decreases 8 * buf.len() - off, 0int,
{
    if 0 <= off && off + 6 <= 8 * buf.len() {
        let type_id = bits_value(buf, off + 3, 3);
        if type_id == 4 {
            lemma_varint_end(buf, off + 6, 0, 0);
        } else if off + 7 <= 8 * buf.len() {
            let length_mode = bits_value(buf, off + 6, 1);
            if length_mode == 0 {
                if off + 22 <= 8 * buf.len() {
                    let total = bits_value(buf, off + 7, 15);
                    lemma_parse_packets_until_bounds(buf, off + 22, off + 22 + total);
                }
            } else {
                if off + 18 <= 8 * buf.len() {
                    let count = bits_value(buf, off + 7, 11);
                    lemma_parse_packets_count_bounds(buf, off + 18, count);
                }
            }
        }
    }
}

/// A successful varint ends within the buffer, after at least one group.
proof fn lemma_varint_end(buf: Seq<u8>, off: int, acc: int, groups: int)
    ensures
        crate::varint::varint_at(buf, off, acc, groups) matches Some((v, g)) ==> groups < g && off
            + 5 * (g - groups) <= 8 * buf.len(),
    decreases 8 * buf.len() - off,
{
    if off + 5 <= 8 * buf.len() && acc < crate::varint::varint_limit() {
        let g0 = bits_value(buf, off, 5);
        if g0 >= 16 {
            lemma_varint_end(buf, off + 5, acc * 16 + g0 % 16, groups + 1);
        }
    }
}

/// Sub-packet parsing by bit length never moves the cursor backwards and
/// ends within the buffer.
pub proof fn lemma_parse_packets_until_bounds(buf: Seq<u8>, off: int, end: int)
    requires
        off <= 8 * buf.len(),
    ensures
        parse_packets_until(buf, off, end) matches Some((subs, fin)) ==> off <= fin <= 8
            * buf.len(),
    decreases 8 * buf.len() - off, 1int,
{
    if off < end {
        match parse_packet(buf, off) {
            None => {},
            Some((m, off2)) => {
                if off < off2 <= 8 * buf.len() {
                    lemma_parse_packets_until_bounds(buf, off2, end);
                }
            },
        }
    }
}

/// Sub-packet parsing by count never moves the cursor backwards and ends
/// within the buffer.
pub proof fn lemma_parse_packets_count_bounds(buf: Seq<u8>, off: int, n: int)
    requires
        off <= 8 * buf.len(),
    ensures
        parse_packets_count(buf, off, n) matches Some((subs, fin)) ==> off <= fin <= 8
            * buf.len(),
    decreases 8 * buf.len() - off, 1int,
{
    if n > 0 {
        match parse_packet(buf, off) {
            None => {},
            Some((m, off2)) => {
                if off < off2 <= 8 * buf.len() {
                    lemma_parse_packets_count_bounds(buf, off2, n - 1);
                }
            },
        }
    }
}

impl Packet {
    /// The 3-bit version field of this packet.
    pub fn version(&self) -> (r: u8)
        ensures
            r as int == packet_model(*self).version,
    {
        self.version
    }

    /// The sub-packets of an operator packet, or `None` for a literal.
    pub fn sub_packets(&self) -> (r: Option<&Vec<Packet>>)
        ensures
            match r {
                Some(subs) => packet_model(*self).kind matches KindModel::Operator { op, subs: sm }
                    && sm == packets_model(subs@),
                None => packet_model(*self).kind is Literal,
            },
    {
        match &self.kind {
            PacketKind::Sum(packets)
            | PacketKind::Product(packets)
            | PacketKind::Minimum(packets)
            | PacketKind::Maximum(packets)
            | PacketKind::Greater(packets)
            | PacketKind::Less(packets)
            | PacketKind::Equal(packets) => Some(packets),
            _ => None,
        }
    }
}

/// Parse one packet at the reader's position.
///
/// On success the cursor stands just past the packet; on failure (the
/// stream ran out mid-packet, or a literal overflowed) the cursor has only
/// moved forward and no partial packet is returned.
pub fn decode_packet(reader: &mut BitReader<'_>) -> (r: Option<Packet>)
    requires
        old(reader).wf(),
    ensures
        final(reader).buf_spec() == old(reader).buf_spec(),
        final(reader).wf(),
        match r {
            Some(p) => parse_packet(old(reader).buf_spec(), old(reader).offset_spec()) == Some(
                (packet_model(p), final(reader).offset_spec()),
            ),
            None => {
                &&& parse_packet(old(reader).buf_spec(), old(reader).offset_spec()) is None
                &&& old(reader).offset_spec() <= final(reader).offset_spec()
            },
        },
    decreases 8 * old(reader).buf_spec().len() - old(reader).offset_spec(),
{
    let ghost buf = old(reader).buf_spec();
    let ghost off0 = old(reader).offset_spec();
    let version_bits = match reader.consume(3) {
        None => {
            return None;
        },
        Some(v) => v,
    };
    let type_bits = match reader.consume(3) {
        None => {
            return None;
        },
        Some(v) => v,
    };
    proof {
        crate::bits::lemma_bits_value_bound(buf, off0, 3);
        crate::bits::lemma_bits_value_bound(buf, off0 + 3, 3);
        vstd::arithmetic::power2::lemma2_to64();
    }
    let version = version_bits as u8;
    if type_bits == 4 {
        match Varint::decode(reader) {
            None => None,
            Some(v) => Some(Packet { version, kind: PacketKind::Literal(v) }),
        }
    } else {
        let length_mode = match reader.consume(1) {
            None => {
                return None;
            },
            Some(v) => v,
        };
        proof {
            crate::bits::lemma_bits_value_bound(buf, off0 + 6, 1);
        }
        if length_mode == 0 {
            let total = match reader.consume(15) {
                None => {
                    return None;
                },
                Some(v) => v,
            };
            let sub_start = reader.offset();
            let ghost endm = sub_start as int + total as int;
            let mut subs: Vec<Packet> = Vec::new();
            while reader.offset() - sub_start < total as usize
                invariant
                    reader.wf(),
                    buf == old(reader).buf_spec(),
                    off0 == old(reader).offset_spec(),
                    reader.buf_spec() == buf,
                    0 <= off0,
                    off0 + 22 <= 8 * buf.len(),
                    sub_start as int == off0 + 22,
                    endm == sub_start as int + total as int,
                    sub_start as int <= reader.offset_spec() <= 8 * buf.len(),
                    type_bits as int == bits_value(buf, off0 + 3, 3),
                    type_bits < 8,
                    type_bits != 4,
                    version as int == bits_value(buf, off0, 3),
                    bits_value(buf, off0 + 6, 1) == 0,
                    total as int == bits_value(buf, off0 + 7, 15),
                    parse_packets_until(buf, sub_start as int, endm) == (match parse_packets_until(
                        buf,
                        reader.offset_spec(),
                        endm,
                    ) {
                        None => None,
                        Some((rest, fin)) => Some((packets_model(subs@) + rest, fin)),
                    }),
                decreases 8 * buf.len() - reader.offset_spec(),
            {
                let ghost cur = reader.offset_spec();
                let ghost subs_pre = subs@;
                match decode_packet(reader) {
                    None => {
                        assert(parse_packets_until(buf, sub_start as int, endm) is None);
                        return None;
                    },
                    Some(p) => {
                        proof {
                            lemma_parse_packet_advances(buf, cur);
                            lemma_packets_model_push(subs_pre, p);
                            let off2 = reader.offset_spec();
                            assert(parse_packets_until(buf, cur, endm) == (
                            match parse_packets_until(buf, off2, endm) {
                                None => None,
                                Some((rest, fin)) => Some((seq![packet_model(p)] + rest, fin)),
                            }));
                        }
                        subs.push(p);
                        proof {
                            assert(packets_model(subs@) =~= packets_model(subs_pre) + seq![
                                packet_model(p),
                            ]);
                            if parse_packets_until(buf, reader.offset_spec(), endm) is Some {
                                let (rest, fin) =
                                    parse_packets_until(buf, reader.offset_spec(), endm)->Some_0;
                                assert(packets_model(subs_pre) + (seq![packet_model(p)] + rest)
                                    =~= packets_model(subs@) + rest);
                            }
                        }
                    },
                }
            }
            assert(parse_packets_until(buf, sub_start as int, endm) == Some(
                (packets_model(subs@), reader.offset_spec()),
            ));
            let kind = match type_bits {
                0 => PacketKind::Sum(subs),
                1 => PacketKind::Product(subs),
                2 => PacketKind::Minimum(subs),
                3 => PacketKind::Maximum(subs),
                5 => PacketKind::Greater(subs),
                6 => PacketKind::Less(subs),
                7 => PacketKind::Equal(subs),
                _ => {
                    // A 3-bit type id below 8 and other than 4 is matched
                    // above.
                    proof {
                        assert(false);
                    }
                    return None;
                },
            };
            Some(Packet { version, kind })
        } else {
            let n = match reader.consume(11) {
                None => {
                    return None;
                },
                Some(v) => v,
            };
            let sub_start = reader.offset();
            let mut subs: Vec<Packet> = Vec::new();
            let mut i: u16 = 0;
            while i < n
                invariant
                    reader.wf(),
                    buf == old(reader).buf_spec(),
                    off0 == old(reader).offset_spec(),
                    reader.buf_spec() == buf,
                    0 <= off0,
                    off0 + 18 <= 8 * buf.len(),
                    sub_start as int == off0 + 18,
                    i <= n,
                    sub_start as int <= reader.offset_spec() <= 8 * buf.len(),
                    type_bits as int == bits_value(buf, off0 + 3, 3),
                    type_bits < 8,
                    type_bits != 4,
                    version as int == bits_value(buf, off0, 3),
                    bits_value(buf, off0 + 6, 1) == 1,
                    n as int == bits_value(buf, off0 + 7, 11),
                    parse_packets_count(buf, sub_start as int, n as int) == (
                    match parse_packets_count(buf, reader.offset_spec(), n as int - i as int) {
                        None => None,
                        Some((rest, fin)) => Some((packets_model(subs@) + rest, fin)),
                    }),
                decreases n as int - i as int,
            {
                let ghost cur = reader.offset_spec();
                let ghost subs_pre = subs@;
                match decode_packet(reader) {
                    None => {
                        assert(parse_packets_count(buf, sub_start as int, n as int) is None);
                        return None;
                    },
                    Some(p) => {
                        proof {
                            lemma_parse_packet_advances(buf, cur);
                            lemma_packets_model_push(subs_pre, p);
                            let off2 = reader.offset_spec();
                            assert(parse_packets_count(buf, cur, n as int - i as int) == (
                            match parse_packets_count(buf, off2, n as int - i as int - 1) {
                                None => None,
                                Some((rest, fin)) => Some((seq![packet_model(p)] + rest, fin)),
                            }));
                        }
                        subs.push(p);
                        i = i + 1;
                        proof {
                            assert(packets_model(subs@) =~= packets_model(subs_pre) + seq![
                                packet_model(p),
                            ]);
                            if parse_packets_count(buf, reader.offset_spec(), n as int - i as int)
                                is Some {
                                let (rest, fin) = parse_packets_count(
                                    buf,
                                    reader.offset_spec(),
                                    n as int - i as int,
                                )->Some_0;
                                assert(packets_model(subs_pre) + (seq![packet_model(p)] + rest)
                                    =~= packets_model(subs@) + rest);
                            }
                        }
                    },
                }
            }
            assert(parse_packets_count(buf, sub_start as int, n as int) == Some(
                (packets_model(subs@), reader.offset_spec()),
            ));
            let kind = match type_bits {
                0 => PacketKind::Sum(subs),
                1 => PacketKind::Product(subs),
                2 => PacketKind::Minimum(subs),
                3 => PacketKind::Maximum(subs),
                5 => PacketKind::Greater(subs),
                6 => PacketKind::Less(subs),
                7 => PacketKind::Equal(subs),
                _ => {
                    // A 3-bit type id below 8 and other than 4 is matched
                    // above.
                    proof {
                        assert(false);
                    }
                    return None;
                },
            };
            Some(Packet { version, kind })
        }
    }
}

/// Decode every top-level packet of the byte buffer, starting at bit offset
/// zero.
///
/// Decoding stops cleanly once fewer bits remain than the smallest packet
/// needs; it fails, returning no packets at all, if a packet starts but the
/// stream ends inside it.
pub fn decode(bytes: &[u8]) -> (r: Option<Vec<Packet>>)
    requires
        8 * bytes@.len() <= usize::MAX,
    ensures
        match r {
            Some(v) => parse_stream(bytes@, 0) == Some(packets_model(v@)),
            None => parse_stream(bytes@, 0) is None,
        },
{
    let ghost buf = bytes@;
    let mut reader = BitReader::new(bytes, 0);
    let mut packets: Vec<Packet> = Vec::new();
    let total_bits = 8 * bytes.len();
    loop
        invariant
            reader.wf(),
            reader.buf_spec() == buf,
            buf == bytes@,
            total_bits == 8 * buf.len(),
            0 <= reader.offset_spec() <= 8 * buf.len(),
            parse_stream(buf, 0) == (match parse_stream(buf, reader.offset_spec()) {
                None => None,
                Some(rest) => Some(packets_model(packets@) + rest),
            }),
        decreases 8 * buf.len() - reader.offset_spec(),
    {
        if total_bits - reader.offset() < 11 {
            assert(parse_stream(buf, reader.offset_spec()) == Some(Seq::<PacketModel>::empty()));
            assert(packets_model(packets@) + Seq::<PacketModel>::empty() =~= packets_model(
                packets@,
            ));
            return Some(packets);
        }
        let ghost cur = reader.offset_spec();
        let ghost packets_pre = packets@;
        match decode_packet(&mut reader) {
            None => {
                assert(parse_stream(buf, 0) is None);
                return None;
            },
            Some(p) => {
                proof {
                    lemma_parse_packet_advances(buf, cur);
                    lemma_packets_model_push(packets_pre, p);
                    let off2 = reader.offset_spec();
                    assert(parse_stream(buf, cur) == (match parse_stream(buf, off2) {
                        None => None,
                        Some(rest) => Some(seq![packet_model(p)] + rest),
                    }));
                }
                packets.push(p);
                proof {
                    assert(packets_model(packets@) =~= packets_model(packets_pre) + seq![
                        packet_model(p),
                    ]);
                    if parse_stream(buf, reader.offset_spec()) is Some {
                        let rest = parse_stream(buf, reader.offset_spec())->Some_0;
                        assert(packets_model(packets_pre) + (seq![packet_model(p)] + rest)
                            =~= packets_model(packets@) + rest);
                    }
                }
            },
        }
    }
}

/// Law: a stream that is exhausted exactly at a packet boundary succeeds and
/// simply stops: the packet that ends flush with the buffer is the last one.
pub proof fn lemma_stream_boundary_success(buf: Seq<u8>, off: int)
    requires
        0 <= off,
        parse_packet(buf, off) matches Some((m, end)) && end == 8 * buf.len(),
    ensures
        parse_stream(buf, off) == Some(seq![parse_packet(buf, off)->Some_0.0]),
{
    let (m, end) = parse_packet(buf, off)->Some_0;
    lemma_parse_packet_advances(buf, off);
    assert(parse_stream(buf, end) == Some(Seq::<PacketModel>::empty()));
    assert(seq![m] + Seq::<PacketModel>::empty() =~= seq![m]);
}

/// Law: a stream with room for a packet to start that cannot complete one
/// fails as a whole; no prefix of packets is returned.
pub proof fn lemma_stream_mid_packet_failure(buf: Seq<u8>, off: int)
    requires
        0 <= off,
        off + min_packet_bits() <= 8 * buf.len(),
        parse_packet(buf, off) is None,
    ensures
        parse_stream(buf, off) is None,
{
}

/// The sum of the evaluated sub-packets, folded left to right.
pub open spec fn sum_evals(s: Seq<PacketModel>) -> int
    decreases s, 0int,
{
    if s.len() == 0 {
        0
    } else {
        sum_evals(s.drop_last()) + eval_model(s.last())
    }
}

/// The product of the evaluated sub-packets, folded left to right.
pub open spec fn prod_evals(s: Seq<PacketModel>) -> int
    decreases s, 0int,
{
    if s.len() == 0 {
        1
    } else {
        prod_evals(s.drop_last()) * eval_model(s.last())
    }
}

/// The least evaluated sub-packet value.
pub open spec fn min_evals(s: Seq<PacketModel>) -> int
    recommends
        s.len() >= 1,
    decreases s, 0int,
{
    if s.len() == 0 {
        0
    } else if s.len() == 1 {
        eval_model(s[0])
    } else {
        let rest = min_evals(s.drop_last());
        let last = eval_model(s.last());
        if last < rest {
            last
        } else {
            rest
        }
    }
}

/// The greatest evaluated sub-packet value.
pub open spec fn max_evals(s: Seq<PacketModel>) -> int
    recommends
        s.len() >= 1,
    decreases s, 0int,
{
    if s.len() == 0 {
        0
    } else if s.len() == 1 {
        eval_model(s[0])
    } else {
        let rest = max_evals(s.drop_last());
        let last = eval_model(s.last());
        if last > rest {
            last
        } else {
            rest
        }
    }
}

/// The arithmetic value of a packet: a literal is its own value, an operator
/// folds its sub-packets, and a comparison yields 1 or 0 from its first two
/// sub-packets.
pub open spec fn eval_model(m: PacketModel) -> int
    decreases m, 1int,
{
    match m.kind {
        KindModel::Literal { value, groups } => value,
        KindModel::Operator { op, subs } => match op {
            OpKind::Sum => sum_evals(subs),
            OpKind::Product => prod_evals(subs),
            OpKind::Minimum => min_evals(subs),
            OpKind::Maximum => max_evals(subs),
            OpKind::Greater => if subs.len() < 2 {
                0
            } else if eval_model(subs[0]) > eval_model(subs[1]) {
                1
            } else {
                0
            },
            OpKind::Less => if subs.len() < 2 {
                0
            } else if eval_model(subs[0]) < eval_model(subs[1]) {
                1
            } else {
                0
            },
            OpKind::Equal => if subs.len() < 2 {
                0
            } else if eval_model(subs[0]) == eval_model(subs[1]) {
                1
            } else {
                0
            },
        },
    }
}

/// The inputs on which evaluation is defined and stays within 64 bits: every
/// literal fits, comparison operators have their two operands, minimum and
/// maximum have at least one, and no sum or running product overflows.
pub open spec fn evaluable(m: PacketModel) -> bool
    decreases m,
{
    match m.kind {
        KindModel::Literal { value, groups } => 0 <= value <= u64::MAX,
        KindModel::Operator { op, subs } => {
            &&& forall|i: int| 0 <= i < subs.len() ==> evaluable(#[trigger] subs[i])
            &&& match op {
                OpKind::Sum => sum_evals(subs) <= u64::MAX,
                OpKind::Product => forall|k: int|
                    0 <= k <= subs.len() ==> prod_evals(#[trigger] subs.take(k)) <= u64::MAX,
                OpKind::Minimum => subs.len() >= 1,
                OpKind::Maximum => subs.len() >= 1,
                OpKind::Greater => subs.len() >= 2,
                OpKind::Less => subs.len() >= 2,
                OpKind::Equal => subs.len() >= 2,
            }
        },
    }
}

/// An evaluable packet evaluates to a nonnegative value.
pub proof fn lemma_eval_nonneg(m: PacketModel)
    requires
        evaluable(m),
    ensures
        0 <= eval_model(m),
    decreases m, 1int,
{
    match m.kind {
        KindModel::Literal { value, groups } => {},
        KindModel::Operator { op, subs } => {
            match op {
                OpKind::Sum => {
                    lemma_sum_evals_nonneg(subs);
                },
                OpKind::Product => {
                    lemma_prod_evals_nonneg(subs);
                },
                OpKind::Minimum => {
                    lemma_min_evals_nonneg(subs);
                },
                OpKind::Maximum => {
                    lemma_max_evals_nonneg(subs);
                },
                OpKind::Greater => {},
                OpKind::Less => {},
                OpKind::Equal => {},
            }
        },
    }
}

proof fn lemma_sum_evals_nonneg(s: Seq<PacketModel>)
    requires
        forall|i: int| 0 <= i < s.len() ==> evaluable(#[trigger] s[i]),
    ensures
        0 <= sum_evals(s),
    decreases s, 0int,
{
    if s.len() > 0 {
        lemma_sum_evals_nonneg(s.drop_last());
        lemma_eval_nonneg(s.last());
    }
}

proof fn lemma_prod_evals_nonneg(s: Seq<PacketModel>)
    requires
        forall|i: int| 0 <= i < s.len() ==> evaluable(#[trigger] s[i]),
    ensures
        0 <= prod_evals(s),
    decreases s, 0int,
{
    if s.len() > 0 {
        lemma_prod_evals_nonneg(s.drop_last());
        lemma_eval_nonneg(s.last());
        let a = prod_evals(s.drop_last());
        let b = eval_model(s.last());
        assert(0 <= a * b) by (nonlinear_arith)
            requires
                0 <= a,
                0 <= b,
        ;
    }
}

proof fn lemma_min_evals_nonneg(s: Seq<PacketModel>)
    requires
        s.len() >= 1,
        forall|i: int| 0 <= i < s.len() ==> evaluable(#[trigger] s[i]),
    ensures
        0 <= min_evals(s),
    decreases s, 0int,
{
    if s.len() <= 1 {
        lemma_eval_nonneg(s[0]);
    } else {
        lemma_min_evals_nonneg(s.drop_last());
        lemma_eval_nonneg(s.last());
    }
}

proof fn lemma_max_evals_nonneg(s: Seq<PacketModel>)
    requires
        s.len() >= 1,
        forall|i: int| 0 <= i < s.len() ==> evaluable(#[trigger] s[i]),
    ensures
        0 <= max_evals(s),
    decreases s, 0int,
{
    if s.len() <= 1 {
        lemma_eval_nonneg(s[0]);
    } else {
        lemma_max_evals_nonneg(s.drop_last());
        lemma_eval_nonneg(s.last());
    }
}

/// A prefix of a sum of evaluable packets is at most the whole sum.
proof fn lemma_sum_evals_prefix(s: Seq<PacketModel>, k: int)
    requires
        0 <= k <= s.len(),
        forall|i: int| 0 <= i < s.len() ==> evaluable(#[trigger] s[i]),
    ensures
        sum_evals(s.take(k)) <= sum_evals(s),
    decreases s.len(),
{
    if k == s.len() {
        assert(s.take(k) =~= s);
    } else {
        lemma_eval_nonneg(s.last());
        assert(s.drop_last().take(k) =~= s.take(k));
        lemma_sum_evals_prefix(s.drop_last(), k);
    }
}

/// The version field of a packet plus those of all packets nested in it.
pub open spec fn version_sum_model(m: PacketModel) -> int
    decreases m, 1int,
{
    match m.kind {
        KindModel::Literal { value, groups } => m.version,
        KindModel::Operator { op, subs } => m.version + version_sums(subs),
    }
}

/// The version sums of a sequence of packets, added together.
pub open spec fn version_sums(s: Seq<PacketModel>) -> int
    decreases s, 0int,
{
    if s.len() == 0 {
        0
    } else {
        version_sums(s.drop_last()) + version_sum_model(s.last())
    }
}

/// The version sum of a decoded packet is never negative.
pub proof fn lemma_version_sum_nonneg(p: Packet)
    ensures
        version_sum_model(packet_model(p)) >= 0,
    decreases p, 1int,
{
    let m = packet_model(p);
    match p.kind {
        PacketKind::Literal(v) => {},
        PacketKind::Sum(subs) => lemma_version_sums_nonneg(subs@),
        PacketKind::Product(subs) => lemma_version_sums_nonneg(subs@),
        PacketKind::Minimum(subs) => lemma_version_sums_nonneg(subs@),
        PacketKind::Maximum(subs) => lemma_version_sums_nonneg(subs@),
        PacketKind::Greater(subs) => lemma_version_sums_nonneg(subs@),
        PacketKind::Less(subs) => lemma_version_sums_nonneg(subs@),
        PacketKind::Equal(subs) => lemma_version_sums_nonneg(subs@),
    }
}

/// The version sums of decoded packets are never negative, packet by packet
/// and in total.
pub proof fn lemma_version_sums_nonneg(s: Seq<Packet>)
    ensures
        version_sums(packets_model(s)) >= 0,
        forall|j: int|
            0 <= j < s.len() ==> version_sum_model(#[trigger] packets_model(s)[j]) >= 0,
    decreases s, 0int,
{
    lemma_packets_model_len(s);
    if s.len() > 0 {
        lemma_version_sums_nonneg(s.drop_last());
        lemma_version_sum_nonneg(s.last());
        lemma_packets_model_index(s, s.len() - 1);
        assert(packets_model(s).drop_last() =~= packets_model(s.drop_last())) by {
            lemma_packets_model_len(s.drop_last());
            assert forall|j: int| 0 <= j < s.len() - 1 implies packets_model(s).drop_last()[j]
                == packets_model(s.drop_last())[j] by {
                lemma_packets_model_index(s, j);
                lemma_packets_model_index(s.drop_last(), j);
            }
        }
        assert forall|j: int| 0 <= j < s.len() implies version_sum_model(
            #[trigger] packets_model(s)[j],
        ) >= 0 by {
            lemma_packets_model_index(s, j);
            if j < s.len() - 1 {
                lemma_packets_model_index(s.drop_last(), j);
            }
        }
    }
}

/// A prefix of the version sums is at most the whole, when every summand is
/// nonnegative.
proof fn lemma_version_sums_prefix(s: Seq<PacketModel>, k: int)
    requires
        0 <= k <= s.len(),
        forall|j: int| 0 <= j < s.len() ==> version_sum_model(#[trigger] s[j]) >= 0,
    ensures
        version_sums(s.take(k)) <= version_sums(s),
    decreases s.len(),
{
    if k == s.len() {
        assert(s.take(k) =~= s);
    } else {
        assert(s.drop_last().take(k) =~= s.take(k));
        lemma_version_sums_prefix(s.drop_last(), k);
        assert(version_sum_model(s.last()) >= 0);
    }
}

impl Packet {
    /// The version of this packet plus those of every packet nested in it,
    /// or `None` if that total does not fit in 64 bits.
    #[verifier::loop_isolation(false)]
    pub fn version_sum(&self) -> (r: Option<u64>)
        ensures
            match r {
                Some(v) => v as int == version_sum_model(packet_model(*self)),
                None => version_sum_model(packet_model(*self)) > u64::MAX,
            },
        decreases *self, 1int,
    {
        let ghost me = packet_model(*self);
        match &self.kind {
            PacketKind::Literal(lit) => Some(self.version as u64),
            PacketKind::Sum(packets)
            | PacketKind::Product(packets)
            | PacketKind::Minimum(packets)
            | PacketKind::Maximum(packets)
            | PacketKind::Greater(packets)
            | PacketKind::Less(packets)
            | PacketKind::Equal(packets) => {
                let ghost sm = packets_model(packets@);
                proof {
                    assert(me.kind is Operator);
                    assert(me.kind->Operator_subs == sm);
                    lemma_packets_model_len(packets@);
                    lemma_version_sums_nonneg(packets@);
                }
                match version_sum_list(packets) {
                    None => {
                        proof {
                            assert(version_sums(sm) > u64::MAX);
                        }
                        None
                    },
                    Some(subs_total) => {
                        match (self.version as u64).checked_add(subs_total) {
                            None => None,
                            Some(total) => Some(total),
                        }
                    },
                }
            },
        }
    }
}

/// The version sums of a list of packets added together, or `None` if the
/// total does not fit in 64 bits.
#[verifier::loop_isolation(false)]
pub fn version_sum_list(packets: &Vec<Packet>) -> (r: Option<u64>)
    ensures
        match r {
            Some(v) => v as int == version_sums(packets_model(packets@)),
            None => version_sums(packets_model(packets@)) > u64::MAX,
        },
    decreases *packets, 0int,
{
    let ghost sm = packets_model(packets@);
    proof {
        lemma_packets_model_len(packets@);
        lemma_version_sums_nonneg(packets@);
    }
    let mut acc: u64 = 0;
    let mut i: usize = 0;
    proof {
        assert(sm.take(0) =~= Seq::<PacketModel>::empty());
    }
    while i < packets.len()
        invariant
            0 <= i <= packets@.len(),
            acc as int == version_sums(sm.take(i as int)),
        decreases packets@.len() - i,
    {
        proof {
            lemma_packets_model_index(packets@, i as int);
            assert(sm.take(i as int + 1).drop_last() =~= sm.take(i as int));
            assert(sm.take(i as int + 1).last() == sm[i as int]);
            lemma_version_sums_prefix(sm, i as int + 1);
        }
        match packets[i].version_sum() {
            None => {
                return None;
            },
            Some(v) => {
                match acc.checked_add(v) {
                    None => {
                        return None;
                    },
                    Some(next) => {
                        acc = next;
                    },
                }
            },
        }
        i = i + 1;
    }
    proof {
        assert(sm.take(sm.len() as int) =~= sm);
    }
    Some(acc)
}

impl Packet {
    /// Evaluate the packet tree as an arithmetic expression.
    ///
    /// Defined on trees whose comparison operators carry two operands, whose
    /// minimum and maximum operators carry at least one, and whose sums and
    /// running products fit in 64 bits; the decoder never produces a literal
    /// that does not fit.  The result is a function of the tree alone, so
    /// evaluating the same tree again yields the same value.
    #[verifier::loop_isolation(false)]
    pub fn eval(&self) -> (r: u64)
        requires
            evaluable(packet_model(*self)),
        ensures
            r as int == eval_model(packet_model(*self)),
        decreases *self,
    {
        let ghost me = packet_model(*self);
        match &self.kind {
            PacketKind::Literal(lit) => lit.0,
            PacketKind::Sum(packets) => {
                let ghost sm = packets_model(packets@);
                proof {
                    lemma_packets_model_len(packets@);
                }
                let mut acc: u64 = 0;
                let mut i: usize = 0;
                while i < packets.len()
                    invariant
                        evaluable(me),
                        me.kind == (KindModel::Operator { op: OpKind::Sum, subs: sm }),
                        sm == packets_model(packets@),
                        sm.len() == packets@.len(),
                        0 <= i <= packets@.len(),
                        acc as int == sum_evals(sm.take(i as int)),
                    decreases packets@.len() - i,
                {
                    proof {
                        lemma_packets_model_index(packets@, i as int);
                        lemma_sum_evals_prefix(sm, i as int + 1);
                        assert(sm.take(i as int + 1).drop_last() =~= sm.take(i as int));
                        assert(sm.take(i as int + 1).last() == sm[i as int]);
                        assert forall|j: int| 0 <= j < sm.take(i as int).len() implies evaluable(
                            #[trigger] sm.take(i as int)[j],
                        ) by {
                            assert(sm.take(i as int)[j] == sm[j]);
                        }
                        lemma_sum_evals_nonneg(sm.take(i as int));
                        lemma_eval_nonneg(sm[i as int]);
                    }
                    let e = packets[i].eval();
                    acc = acc + e;
                    i = i + 1;
                }
                proof {
                    assert(sm.take(sm.len() as int) =~= sm);
                }
                acc
            },
            PacketKind::Product(packets) => {
                let ghost sm = packets_model(packets@);
                proof {
                    lemma_packets_model_len(packets@);
                    assert(evaluable(me));
                    assert(me.kind is Operator);
                    assert(me.kind->Operator_op == OpKind::Product);
                    assert(me.kind->Operator_subs == sm);
                }
                let mut acc: u64 = 1;
                let mut i: usize = 0;
                proof {
                    assert(sm.take(0) =~= Seq::<PacketModel>::empty());
                }
                while i < packets.len()
                    invariant
                        evaluable(me),
                        me.kind == (KindModel::Operator { op: OpKind::Product, subs: sm }),
                        forall|j: int| 0 <= j < sm.len() ==> evaluable(#[trigger] sm[j]),
                        forall|k: int|
                            0 <= k <= sm.len() ==> prod_evals(#[trigger] sm.take(k)) <= u64::MAX,
                        sm == packets_model(packets@),
                        sm.len() == packets@.len(),
                        0 <= i <= packets@.len(),
                        acc as int == prod_evals(sm.take(i as int)),
                    decreases packets@.len() - i,
                {
                    proof {
                        lemma_packets_model_index(packets@, i as int);
                        assert(sm.take(i as int + 1).drop_last() =~= sm.take(i as int));
                        assert(sm.take(i as int + 1).last() == sm[i as int]);
                        assert forall|j: int| 0 <= j < sm.take(i as int).len() implies evaluable(
                            #[trigger] sm.take(i as int)[j],
                        ) by {
                            assert(evaluable(sm[j]));
                            assert(sm.take(i as int)[j] == sm[j]);
                        }
                        lemma_prod_evals_nonneg(sm.take(i as int));
                        lemma_eval_nonneg(sm[i as int]);
                        assert(prod_evals(sm.take(i as int + 1)) <= u64::MAX);
                    }
                    let e = packets[i].eval();
                    acc = acc * e;
                    i = i + 1;
                }
                proof {
                    assert(sm.take(sm.len() as int) =~= sm);
                }
                acc
            },
            PacketKind::Minimum(packets) => {
                let ghost sm = packets_model(packets@);
                proof {
                    lemma_packets_model_len(packets@);
                    lemma_packets_model_index(packets@, 0);
                }
                let mut acc: u64 = packets[0].eval();
                let mut i: usize = 1;
                proof {
                    assert(sm.take(1) =~= seq![sm[0]]);
                }
                while i < packets.len()
                    invariant
                        evaluable(me),
                        me.kind == (KindModel::Operator { op: OpKind::Minimum, subs: sm }),
                        sm == packets_model(packets@),
                        sm.len() == packets@.len(),
                        1 <= i <= packets@.len(),
                        acc as int == min_evals(sm.take(i as int)),
                    decreases packets@.len() - i,
                {
                    proof {
                        lemma_packets_model_index(packets@, i as int);
                        assert(sm.take(i as int + 1).drop_last() =~= sm.take(i as int));
                        assert(sm.take(i as int + 1).last() == sm[i as int]);
                    }
                    let e = packets[i].eval();
                    if e < acc {
                        acc = e;
                    }
                    i = i + 1;
                }
                proof {
                    assert(sm.take(sm.len() as int) =~= sm);
                }
                acc
            },
            PacketKind::Maximum(packets) => {
                let ghost sm = packets_model(packets@);
                proof {
                    lemma_packets_model_len(packets@);
                    lemma_packets_model_index(packets@, 0);
                }
                let mut acc: u64 = packets[0].eval();
                let mut i: usize = 1;
                proof {
                    assert(sm.take(1) =~= seq![sm[0]]);
                }
                while i < packets.len()
                    invariant
                        evaluable(me),
                        me.kind == (KindModel::Operator { op: OpKind::Maximum, subs: sm }),
                        sm == packets_model(packets@),
                        sm.len() == packets@.len(),
                        1 <= i <= packets@.len(),
                        acc as int == max_evals(sm.take(i as int)),
                    decreases packets@.len() - i,
                {
                    proof {
                        lemma_packets_model_index(packets@, i as int);
                        assert(sm.take(i as int + 1).drop_last() =~= sm.take(i as int));
                        assert(sm.take(i as int + 1).last() == sm[i as int]);
                    }
                    let e = packets[i].eval();
                    if e > acc {
                        acc = e;
                    }
                    i = i + 1;
                }
                proof {
                    assert(sm.take(sm.len() as int) =~= sm);
                }
                acc
            },
            PacketKind::Greater(packets) => {
                proof {
                    lemma_packets_model_index(packets@, 0);
                    lemma_packets_model_index(packets@, 1);
                }
                let lhs = packets[0].eval();
                let rhs = packets[1].eval();
                if lhs > rhs {
                    1
                } else {
                    0
                }
            },
            PacketKind::Less(packets) => {
                proof {
                    lemma_packets_model_index(packets@, 0);
                    lemma_packets_model_index(packets@, 1);
                }
                let lhs = packets[0].eval();
                let rhs = packets[1].eval();
                if lhs < rhs {
                    1
                } else {
                    0
                }
            },
            PacketKind::Equal(packets) => {
                proof {
                    lemma_packets_model_index(packets@, 0);
                    lemma_packets_model_index(packets@, 1);
                }
                let lhs = packets[0].eval();
                let rhs = packets[1].eval();
                if lhs == rhs {
                    1
                } else {
                    0
                }
            },
        }
    }
}

} // verus!
