//! Tests for the packet decoder: bit reading, literal groups, end-to-end
//! version sums and values, and every failure kind.

use aoc::aoc_error::AocError;
use aoc::days::sixteen::Bits;
use aoc::days::sixteen::{Packet, PacketList};

#[test]
fn bits_expand_hex() {
    let cs: Vec<char> = "D2FE28".chars().collect();
    let bits = Bits::new(&cs).unwrap();
    assert_eq!(
        bits.data,
        vec![1, 1, 0, 1, 0, 0, 1, 0, 1, 1, 1, 1, 1, 1, 1, 0, 0, 0, 1, 0, 1, 0, 0, 0]
    );
    assert_eq!(bits.pos, 0);
}

#[test]
fn bits_reject_non_hex() {
    let cs: Vec<char> = "D2FG28".chars().collect();
    assert_eq!(Bits::new(&cs).unwrap_err(), AocError::MalformedHex);
}

#[test]
fn read_header_fields() {
    let cs: Vec<char> = "D2FE28".chars().collect();
    let mut bits = Bits::new(&cs).unwrap();
    assert_eq!(aoc::days::sixteen::read_to_int(&mut bits, 3).unwrap(), 6);
    assert_eq!(aoc::days::sixteen::read_to_int(&mut bits, 3).unwrap(), 4);
    assert_eq!(bits.pos, 6);
}

#[test]
fn read_past_end_fails() {
    let cs: Vec<char> = "D2".chars().collect();
    let mut bits = Bits::new(&cs).unwrap();
    assert_eq!(
        aoc::days::sixteen::read_to_int(&mut bits, 9).unwrap_err(),
        AocError::UnexpectedEndOfStream
    );
    assert_eq!(bits.pos, 0);
}

#[test]
fn literal_groups_decode_2021() {
    // The classic fixture: groups 10111 11110 00101 hold 0111 1110 0101,
    // which is 2021, in 15 bits after the 6-bit header.
    let bits_after_header = vec![1, 0, 1, 1, 1, 1, 1, 1, 1, 0, 0, 0, 1, 0, 1];
    let mut bits = Bits { data: bits_after_header, pos: 0 };
    let (packet, consumed) = aoc::days::sixteen::Packet::read_literal(&mut bits, 6).unwrap();
    assert_eq!(consumed, 15);
    match packet {
        aoc::days::sixteen::Packet::Literal { version, value } => {
            assert_eq!(version, 6);
            assert_eq!(value, 2021);
        },
        _ => panic!("expected a literal"),
    }
}

#[test]
fn whole_literal_packet() {
    let cs: Vec<char> = "D2FE28".chars().collect();
    let mut bits = Bits::new(&cs).unwrap();
    let (packet, consumed) = aoc::days::sixteen::Packet::read_from_bits(&mut bits).unwrap();
    assert_eq!(consumed, 21);
    assert_eq!(bits.pos, 21);
    assert_eq!(packet.value().unwrap(), 2021);
    assert_eq!(packet.version_sum(), 6);
}

#[test]
fn bit_length_framed_operator_consumes_exactly() {
    let cs: Vec<char> = "38006F45291200".chars().collect();
    let mut bits = Bits::new(&cs).unwrap();
    let (packet, consumed) = aoc::days::sixteen::Packet::read_from_bits(&mut bits).unwrap();
    // 6 header bits, 1 framing bit, a 15-bit length, then 27 bits of children.
    assert_eq!(consumed, 49);
    assert_eq!(bits.pos, 49);
    assert_eq!(packet.version_sum(), 9);
    assert_eq!(packet.value().unwrap(), 1);
}

#[test]
fn version_sums() {
    assert_eq!(aoc::days::sixteen::part_one("8A004A801A8002F478").unwrap(), "16");
    assert_eq!(aoc::days::sixteen::part_one("620080001611562C8802118E34").unwrap(), "12");
    assert_eq!(aoc::days::sixteen::part_one("C0015000016115A2E0802F182340").unwrap(), "23");
    assert_eq!(aoc::days::sixteen::part_one("A0016C880162017C3686B18A3D4780").unwrap(), "31");
    assert_eq!(aoc::days::sixteen::part_one("D2FE28").unwrap(), "6");
    assert_eq!(aoc::days::sixteen::part_one("38006F45291200").unwrap(), "9");
}

#[test]
fn values() {
    assert_eq!(aoc::days::sixteen::part_two("C200B40A82").unwrap(), "3");
    assert_eq!(aoc::days::sixteen::part_two("04005AC33890").unwrap(), "54");
    assert_eq!(aoc::days::sixteen::part_two("880086C3E88112").unwrap(), "7");
    assert_eq!(aoc::days::sixteen::part_two("CE00C43D881120").unwrap(), "9");
    assert_eq!(aoc::days::sixteen::part_two("D8005AC2A8F0").unwrap(), "1");
    assert_eq!(aoc::days::sixteen::part_two("F600BC2D8F").unwrap(), "0");
    assert_eq!(aoc::days::sixteen::part_two("9C005AC2F8F0").unwrap(), "0");
    assert_eq!(aoc::days::sixteen::part_two("9C0141080250320F1802104A08").unwrap(), "1");
    assert_eq!(aoc::days::sixteen::part_two("D2FE28").unwrap(), "2021");
}

#[test]
fn malformed_inputs_fail_without_crashing() {
    assert_eq!(aoc::days::sixteen::part_one("").unwrap_err(), AocError::UnexpectedEndOfStream);
    assert_eq!(aoc::days::sixteen::part_one("D2F").unwrap_err(), AocError::UnexpectedEndOfStream);
    assert_eq!(aoc::days::sixteen::part_one("D2").unwrap_err(), AocError::UnexpectedEndOfStream);
    assert_eq!(aoc::days::sixteen::part_one("D2FE2G").unwrap_err(), AocError::MalformedHex);
    assert_eq!(aoc::days::sixteen::part_two("xyz").unwrap_err(), AocError::MalformedHex);
}

#[test]
fn operator_without_children_is_rejected() {
    // An 11-bit-count frame declaring zero children parses, but a sum with
    // nothing to add is a missing operand.
    assert_eq!(aoc::days::sixteen::part_one("020000").unwrap(), "0");
    assert_eq!(aoc::days::sixteen::part_two("020000").unwrap_err(), AocError::MissingOperand);
}

#[test]
fn unknown_operator_is_rejected() {
    let child = Packet::Literal { version: 0, value: 1 };
    let packet = Packet::Operator { version: 0, type_id: 4, packets: PacketList(vec![child]) };
    assert_eq!(packet.value().unwrap_err(), AocError::UnknownOperator);
}

#[test]
fn version_sum_ignores_child_order_but_value_does_not() {
    let a = Packet::Literal { version: 3, value: 10 };
    let b = Packet::Literal { version: 5, value: 20 };
    let a2 = Packet::Literal { version: 3, value: 10 };
    let b2 = Packet::Literal { version: 5, value: 20 };
    // type 5 is greater-than: order of the two operands matters for value...
    let forward = Packet::Operator { version: 1, type_id: 5, packets: PacketList(vec![a, b]) };
    let backward = Packet::Operator { version: 1, type_id: 5, packets: PacketList(vec![b2, a2]) };
    assert_ne!(forward.value().unwrap(), backward.value().unwrap());
    // ... but the version sum is the same however the children are arranged.
    assert_eq!(forward.version_sum(), backward.version_sum());
    assert_eq!(forward.version_sum(), 9);
}
