use slot_correlator::codec::assemble_packet;
use slot_correlator::codec::calculate_checksum;
use slot_correlator::codec::checksum_byte;
use slot_correlator::codec::decode;
use slot_correlator::codec::sum_bytes;
use slot_correlator::codec::verify_checksum;
use slot_correlator::codec::DecodeError;
use slot_correlator::codec::END_DELIMITER;
use slot_correlator::codec::MIN_FRAME_LEN;
use slot_correlator::codec::START_DELIMITER;
use slot_correlator::slot::SeqChar;

fn slot(symbol: u8) -> SeqChar {
    SeqChar::from_symbol(symbol).unwrap()
}

#[test]
fn delimiters_and_minimum_length() {
    assert_eq!(START_DELIMITER, b'$');
    assert_eq!(END_DELIMITER, b'#');
    assert_eq!(MIN_FRAME_LEN, 5);
}

#[test]
fn sum_of_bytes_wraps_at_256() {
    assert_eq!(sum_bytes(b""), 0);
    assert_eq!(sum_bytes(b"cHELLO"), 215);
    assert_eq!(sum_bytes(&[200, 100]), 44);
    assert_eq!(sum_bytes(&[1u8; 256]), 0);
    assert_eq!(sum_bytes(&[255u8; 3]), 253);
}

#[test]
fn checksum_is_the_complemented_sum() {
    assert_eq!(checksum_byte(b""), 0xff);
    assert_eq!(checksum_byte(b"cHELLO"), 0x28);
    assert_eq!(checksum_byte(b"aMD"), 0x0d);
    assert_eq!(checksum_byte(&[1u8; 256]), 0xff);
    assert_eq!(checksum_byte(&[0xff]), 0x00);
}

#[test]
fn checksum_field_renders_every_value_in_upper_case_hex() {
    for byte in 0u8..=255 {
        let expected = format!("{:02X}", !byte);
        assert_eq!(calculate_checksum(&[byte]).to_vec(), expected.into_bytes());
    }
}

#[test]
fn checksum_field_is_two_hex_digits() {
    assert_eq!(calculate_checksum(b""), *b"FF");
    assert_eq!(calculate_checksum(b"cHELLO"), *b"28");
    assert_eq!(calculate_checksum(b"aMD"), *b"0D");
    assert_eq!(calculate_checksum(&[0xff]), *b"00");
    assert_eq!(calculate_checksum(&[0x05]), *b"FA");
    assert_eq!(calculate_checksum(&[0x54]), *b"AB");
}

#[test]
fn assemble_packet_builds_the_frame() {
    assert_eq!(assemble_packet(&slot(b'a'), b"MD"), b"$aMD#0D".to_vec());
    assert_eq!(assemble_packet(&slot(b'c'), b"HELLO"), b"$cHELLO#28".to_vec());
    assert_eq!(assemble_packet(&slot(b'a'), b""), b"$a#9E".to_vec());
    assert_eq!(assemble_packet(&slot(b'z'), b""), b"$z#85".to_vec());
}

#[test]
fn decode_returns_what_was_encoded() {
    let payloads: [&[u8]; 7] =
        [b"", b"MD", b"HELLO", b"12.345", b"a#b", b"$$", &[0, 255, 128, 10, 13]];
    for symbol in b'a'..=b'z' {
        for payload in payloads {
            let frame = assemble_packet(&slot(symbol), payload);
            assert_eq!(frame.len(), payload.len() + 5);
            assert!(verify_checksum(&frame));
            assert_eq!(decode(&frame), Ok((slot(symbol), payload.to_vec())));
        }
    }
}

#[test]
fn decode_returns_long_payloads() {
    let payload: Vec<u8> = (0..2000u32).map(|i| (i * 7 + 3) as u8).collect();
    let frame = assemble_packet(&slot(b'q'), &payload);
    assert_eq!(decode(&frame), Ok((slot(b'q'), payload)));
}

#[test]
fn short_frames_are_malformed() {
    let full = b"$a#9E";
    assert_eq!(decode(full), Ok((slot(b'a'), Vec::new())));
    for len in 0..MIN_FRAME_LEN {
        assert_eq!(decode(&full[..len]), Err(DecodeError::Malformed));
        assert!(!verify_checksum(&full[..len]));
    }
    assert_eq!(decode(b"$#FF"), Err(DecodeError::Malformed));
    assert_eq!(decode(b"#28"), Err(DecodeError::Malformed));
}

#[test]
fn frames_without_delimiters_are_malformed() {
    assert_eq!(decode(b"!cHELLO#28"), Err(DecodeError::Malformed));
    assert_eq!(decode(b"cHELLO#28"), Err(DecodeError::Malformed));
    assert_eq!(decode(b"$cHELLO!28"), Err(DecodeError::Malformed));
    assert_eq!(decode(b"$cHELLO28"), Err(DecodeError::Malformed));
    assert_eq!(decode(b"$cHELLO#2"), Err(DecodeError::Malformed));
    assert_eq!(decode(b"$cHELLO#289"), Err(DecodeError::Malformed));
    assert_eq!(decode(b"$cHELLO#28\r"), Err(DecodeError::Malformed));
    assert!(!verify_checksum(b"!cHELLO#28"));
    assert!(!verify_checksum(b"$cHELLO!28"));
}

#[test]
fn wrong_checksum_is_a_mismatch() {
    assert_eq!(decode(b"$cHELLO#28"), Ok((slot(b'c'), b"HELLO".to_vec())));
    assert_eq!(decode(b"$cHELLO#00"), Err(DecodeError::ChecksumMismatch));
    assert_eq!(decode(b"$cHELLO#29"), Err(DecodeError::ChecksumMismatch));
    assert_eq!(decode(b"$cHELLO#82"), Err(DecodeError::ChecksumMismatch));
    assert_eq!(decode(b"$cHELLO#  "), Err(DecodeError::ChecksumMismatch));
    assert!(!verify_checksum(b"$cHELLO#00"));
}

#[test]
fn lower_case_checksum_is_a_mismatch() {
    assert_eq!(decode(b"$aMD#0D"), Ok((slot(b'a'), b"MD".to_vec())));
    assert_eq!(decode(b"$aMD#0d"), Err(DecodeError::ChecksumMismatch));
    assert_eq!(decode(b"$a#9e"), Err(DecodeError::ChecksumMismatch));
}

#[test]
fn symbol_outside_the_alphabet_is_an_unknown_slot() {
    assert_eq!(calculate_checksum(b"AMD"), *b"2D");
    assert!(verify_checksum(b"$AMD#2D"));
    assert_eq!(decode(b"$AMD#2D"), Err(DecodeError::UnknownSlot));
    assert_eq!(calculate_checksum(b"{"), *b"84");
    assert_eq!(decode(b"${#84"), Err(DecodeError::UnknownSlot));
    assert_eq!(calculate_checksum(b"`"), *b"9F");
    assert_eq!(decode(b"$`#9F"), Err(DecodeError::UnknownSlot));
}

#[test]
fn checksum_is_tested_before_the_slot() {
    assert_eq!(decode(b"$AMD#00"), Err(DecodeError::ChecksumMismatch));
}

#[test]
fn shape_is_tested_before_the_checksum() {
    assert_eq!(decode(b"!AMD#00"), Err(DecodeError::Malformed));
}

#[test]
fn every_single_bit_flip_in_the_span_is_detected() {
    let payloads: [&[u8]; 4] = [b"", b"MD", b"HELLO", &[0, 255, 128, 127, 1]];
    let mut flips = 0;
    for symbol in [b'a', b'c', b'm', b'z'] {
        for payload in payloads {
            let frame = assemble_packet(&slot(symbol), payload);
            for position in 1..frame.len() - 3 {
                for bit in 0..8 {
                    let mut damaged = frame.clone();
                    damaged[position] ^= 1 << bit;
                    assert_eq!(decode(&damaged), Err(DecodeError::ChecksumMismatch));
                    assert!(!verify_checksum(&damaged));
                    flips += 1;
                }
            }
        }
    }
    assert_eq!(flips, 4 * (1 + 3 + 6 + 6) * 8);
}

#[test]
fn every_single_byte_change_in_the_span_is_detected() {
    let frame = assemble_packet(&slot(b'k'), b"12.5");
    for position in 1..frame.len() - 3 {
        for byte in 0u8..=255 {
            if byte != frame[position] {
                let mut damaged = frame.clone();
                damaged[position] = byte;
                assert_eq!(decode(&damaged), Err(DecodeError::ChecksumMismatch));
            }
        }
    }
}

#[test]
fn two_changes_that_cancel_are_not_detected() {
    assert_eq!(decode(b"$aMD#0D"), Ok((slot(b'a'), b"MD".to_vec())));
    assert_eq!(decode(b"$aNC#0D"), Ok((slot(b'a'), b"NC".to_vec())));
}

#[test]
fn garbage_never_decodes_by_accident_and_never_panics() {
    let mut state: u32 = 0x2545_f491;
    let mut buffer: Vec<u8> = Vec::new();
    for round in 0..4000usize {
        buffer.clear();
        for _ in 0..(round % 40) {
            state = state.wrapping_mul(1_664_525).wrapping_add(1_013_904_223);
            buffer.push((state >> 24) as u8);
        }
        let valid = verify_checksum(&buffer);
        match decode(&buffer) {
            Ok((id, payload)) => {
                assert!(valid);
                assert_eq!(assemble_packet(&id, &payload), buffer);
            }
            Err(DecodeError::UnknownSlot) => assert!(valid),
            Err(_) => assert!(!valid),
        }
    }
}
