use submarine::bits::BitReader;
use submarine::hex;
use submarine::hex::HexError;
use submarine::packet;
use submarine::transmission;
use submarine::transmission::TransmissionError;
use submarine::varint::Varint;

#[test]
fn should_decode_varint() {
    let bits = &[0b10111111, 0b10001010];
    let mut reader = BitReader::new(bits, 0);

    assert_eq!(Varint::decode(&mut reader), Some(Varint(2021, 3)));
}

#[test]
fn varint_fails_on_exhausted_stream() {
    // One continuation group fits in a single byte, but the next group runs
    // past the end of the buffer.
    let bits = &[0b11111111];
    let mut reader = BitReader::new(bits, 0);

    assert_eq!(Varint::decode(&mut reader), None);
}

#[test]
fn varint_fails_on_overflow() {
    // Seventeen all-ones groups would need more than 64 bits of value.
    let bits = &[0xFF; 11];
    let mut reader = BitReader::new(bits, 0);

    assert_eq!(Varint::decode(&mut reader), None);
}

#[test]
fn bit_reader_reads_fields_across_byte_boundaries() {
    let bytes = &[0b10110010, 0b01011101];
    let mut reader = BitReader::new(bytes, 0);

    assert_eq!(reader.consume(3), Some(0b101));
    assert_eq!(reader.consume(7), Some(0b1001001));
    assert_eq!(reader.consume(6), Some(0b011101));
    assert_eq!(reader.consume(1), None);
}

#[test]
fn bit_reader_reports_exhaustion_without_moving() {
    let bytes = &[0b10110010];
    let mut reader = BitReader::new(bytes, 0);

    assert_eq!(reader.consume(6), Some(0b101100));
    assert_eq!(reader.offset(), 6);
    // Only two bits remain, so a three-bit read fails and the cursor stays.
    assert_eq!(reader.consume(3), None);
    assert_eq!(reader.offset(), 6);
    assert_eq!(reader.consume(2), Some(0b10));
}

#[test]
fn bit_reader_16_bit_field_matches_manual_big_endian_read() {
    let bytes = &[0xAB, 0xCD, 0xEF];
    let mut reader = BitReader::new(bytes, 4);

    // Bits 4..20 are the middle sixteen of 0xABCDEF.
    assert_eq!(reader.consume(16), Some(0xBCDE));
}

#[test]
fn hex_decode_produces_bytes_in_order() {
    assert_eq!(hex::decode("D2FE28"), Ok(vec![0xD2, 0xFE, 0x28]));
    assert_eq!(hex::decode("d2fe28"), Ok(vec![0xD2, 0xFE, 0x28]));
    assert_eq!(hex::decode(""), Ok(vec![]));
}

#[test]
fn hex_decode_rejects_odd_length() {
    assert_eq!(hex::decode("ABC"), Err(HexError::OddLength));
}

#[test]
fn hex_decode_rejects_bad_digit() {
    assert_eq!(hex::decode("AG"), Err(HexError::InvalidDigit));
    assert_eq!(hex::decode("é2"), Err(HexError::InvalidDigit));
}

#[test]
fn hex_round_trips_through_encode() {
    let bytes = hex::decode("D2FE28").unwrap();
    assert_eq!(hex::encode(&bytes), "d2fe28");

    let all = (0u16..256).map(|b| b as u8).collect::<Vec<u8>>();
    let text = hex::encode(&all);
    assert_eq!(hex::decode(&text).unwrap(), all);
}

#[test]
fn literal_packet_decodes_to_version_6_value_2021() {
    let bytes = hex::decode("D2FE28").unwrap();
    let packets = packet::decode(&bytes).unwrap();

    assert_eq!(packets.len(), 1);
    assert_eq!(packets[0].version(), 6);
    assert!(packets[0].sub_packets().is_none());
    assert_eq!(packets[0].eval(), 2021);
}

#[test]
fn total_bits_operator_carries_two_literals() {
    let bytes = hex::decode("38006F45291200").unwrap();
    let packets = packet::decode(&bytes).unwrap();

    assert_eq!(packets.len(), 1);
    assert_eq!(packets[0].version(), 1);
    let subs = packets[0].sub_packets().unwrap();
    assert_eq!(subs.len(), 2);
    assert!(subs[0].sub_packets().is_none());
    assert!(subs[1].sub_packets().is_none());
    assert_eq!(subs[0].eval(), 10);
    assert_eq!(subs[1].eval(), 20);
}

#[test]
fn equality_transmission_answers_both_queries() {
    let line = "9C0141080250320F1802104A08";
    assert_eq!(transmission::value_of_line(line), Ok(1));
    assert_eq!(transmission::version_sum_of_line(line), Ok(20));
}

#[test]
fn evaluation_is_repeatable_on_the_same_tree() {
    let bytes = hex::decode("9C0141080250320F1802104A08").unwrap();
    let packets = packet::decode(&bytes).unwrap();

    let first = packets[0].eval();
    let second = packets[0].eval();
    assert_eq!(first, second);
    assert_eq!(first, 1);
}

#[test]
fn stream_ending_exactly_at_packet_boundary_succeeds() {
    // 000 100 10001 00010: a version-0 literal of two groups, sixteen bits,
    // flush with the end of the buffer.
    let bytes = hex::decode("1222").unwrap();
    let packets = packet::decode(&bytes).unwrap();

    assert_eq!(packets.len(), 1);
    assert_eq!(packets[0].version(), 0);
    assert_eq!(packets[0].eval(), 18);
}

#[test]
fn stream_exhausted_mid_packet_fails() {
    // An operator header announcing an 11-bit count field that the sixteen
    // available bits cannot hold.
    let bytes = hex::decode("FFFF").unwrap();
    assert!(packet::decode(&bytes).is_none());
    assert_eq!(
        transmission::version_sum_of_line("FFFF"),
        Err(TransmissionError::Malformed)
    );
}

#[test]
fn trailing_padding_is_not_interpreted() {
    // A complete literal followed by less than one packet's worth of zeros.
    let bytes = hex::decode("D2FE28").unwrap();
    let packets = packet::decode(&bytes).unwrap();
    assert_eq!(packets.len(), 1);

    // An empty stream and a padding-only stream hold no packets at all.
    assert_eq!(packet::decode(&[]).unwrap().len(), 0);
    assert_eq!(packet::decode(&[0x00]).unwrap().len(), 0);
    assert_eq!(
        transmission::value_of_line("00"),
        Err(TransmissionError::Empty)
    );
}

#[test]
fn bad_hex_fails_before_bit_work() {
    assert_eq!(
        transmission::version_sum_of_line("D2F"),
        Err(TransmissionError::Hex(HexError::OddLength))
    );
    assert_eq!(
        transmission::value_of_line("ZZ"),
        Err(TransmissionError::Hex(HexError::InvalidDigit))
    );
}

#[test]
fn operator_evaluation_covers_every_kind() {
    // These are the canonical operator transmissions for this grammar.
    assert_eq!(transmission::value_of_line("C200B40A82"), Ok(3)); // sum of 1 and 2
    assert_eq!(transmission::value_of_line("04005AC33890"), Ok(54)); // product of 6 and 9
    assert_eq!(transmission::value_of_line("880086C3E88112"), Ok(7)); // minimum of 7, 8, 9
    assert_eq!(transmission::value_of_line("CE00C43D881120"), Ok(9)); // maximum of 7, 8, 9
    assert_eq!(transmission::value_of_line("D8005AC2A8F0"), Ok(1)); // 5 is less than 15
    assert_eq!(transmission::value_of_line("F600BC2D8F"), Ok(0)); // 5 is not greater than 15
    assert_eq!(transmission::value_of_line("9C005AC2F8F0"), Ok(0)); // 5 is not equal to 15
}

#[test]
fn version_sums_match_known_transmissions() {
    assert_eq!(transmission::version_sum_of_line("8A004A801A8002F478"), Ok(16));
    assert_eq!(transmission::version_sum_of_line("620080001611562C8802118E34"), Ok(12));
    assert_eq!(transmission::version_sum_of_line("C0015000016115A2E0802F182340"), Ok(23));
    assert_eq!(transmission::version_sum_of_line("A0016C880162017C3686B18A3D4780"), Ok(31));
}
