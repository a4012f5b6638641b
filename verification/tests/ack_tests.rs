use reliudp::ack::Ack;

#[test]
fn ack_ser() {
    let frag_ids = vec![1u8, 2u8, 8u8, 9u8];
    let frag_total: u8 = 15;
    let ack = Ack::create_from_frag_ids(&frag_ids, frag_total);

    assert_eq!(ack.into_inner().as_slice(), &[0b00000110, 0b00000011]);
}

#[test]
fn ack_missing() {
    let frag_ids = vec![1u8, 2u8, 8u8, 9u8];
    let frag_total: u8 = 15;
    let ack = Ack::create_from_frag_ids(&frag_ids, frag_total);
    let missing: Vec<u8> = ack.into_missing_iter(frag_total);

    assert_eq!(missing.as_slice(), &[0, 3, 4, 5, 6, 7, 10, 11, 12, 13, 14, 15]);
}

#[test]
fn ack_deser() {
    let ack = Ack::new(vec![0b00000110u8, 0b00000011]);
    let frag_total: u8 = 15;

    let expected_frag_ids = &[1u8, 2u8, 8u8, 9u8];

    let ack_frag_ids: Vec<_> = ack.into_iter(frag_total);

    assert_eq!(ack_frag_ids, expected_frag_ids);
}

#[test]
fn ack_ser_deser() {
    let vec1: Vec<u8> = (0..255u8).collect();
    let frag_total: u8 = 254;
    let vec2: Vec<u8> = (0..255u8).step_by(2).collect();
    let vec3: Vec<u8> = (0..255u8).step_by(3).collect();

    let ack1 = Ack::create_from_frag_ids(&vec1, frag_total);
    let ack2 = Ack::create_from_frag_ids(&vec2, frag_total);
    let ack3 = Ack::create_from_frag_ids(&vec3, frag_total);

    let ack_vec1: Vec<u8> = ack1.into_iter(frag_total);
    let ack_vec2: Vec<u8> = ack2.into_iter(frag_total);
    let ack_vec3: Vec<u8> = ack3.into_iter(frag_total);

    assert_eq!(ack_vec1, vec1);
    assert_eq!(ack_vec2, vec2);
    assert_eq!(ack_vec3, vec3);
}

#[test]
fn ack_complete_single_fragment_is_one_byte() {
    // a single-fragment message acks with exactly one byte, value 0x01
    let ack = Ack::create_complete(0);
    assert_eq!(ack.into_inner(), vec![0x01u8]);
}

#[test]
fn ack_complete_256_fragments_is_all_ones() {
    // a 256-fragment message acks with 32 bytes of 0xFF
    let ack = Ack::create_complete(255);
    assert_eq!(ack.into_inner(), vec![0xFFu8; 32]);
}

#[test]
fn ack_complete_partial_last_byte() {
    // frag_total 9 needs 2 bytes; only bits 8 and 9 of the last byte count
    let ack = Ack::create_complete(9);
    assert_eq!(ack.into_inner(), vec![0xFFu8, 0b00000011]);
}

#[test]
fn ack_size_is_one_byte_per_eight_fragments() {
    assert_eq!(reliudp::ack::ack_size_from_frag_total(0), 1);
    assert_eq!(reliudp::ack::ack_size_from_frag_total(7), 1);
    assert_eq!(reliudp::ack::ack_size_from_frag_total(8), 2);
    assert_eq!(reliudp::ack::ack_size_from_frag_total(15), 2);
    assert_eq!(reliudp::ack::ack_size_from_frag_total(255), 32);
}
