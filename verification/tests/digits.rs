use piz::digits::{byte_at, fraction_at, ONE, POSITION_LIMIT, TAIL_TERMS};
use piz::{extract, get_bytes_from_pi, series, DecodeError, NumberBase};

const PI_HEX: &str = "243F6A8885A308D313198A2E03707344A4093822299F31D0082EFA98EC4E6C89";

fn digits_to_bytes(digits: &str) -> Vec<u8> {
    let values: Vec<u8> = digits.chars().map(|c| c.to_digit(16).unwrap() as u8).collect();
    values.chunks(2).map(|pair| pair[0] * 16 + pair[1]).collect()
}

#[test]
fn constants_have_their_documented_values() {
    assert_eq!(ONE, 16i64.pow(15));
    assert_eq!(ONE, 1i64 << 60);
    assert_eq!(TAIL_TERMS, 100);
    assert_eq!(POSITION_LIMIT, 1u64 << 56);
}

#[test]
fn first_byte_of_pi_is_0x24() {
    assert_eq!(get_bytes_from_pi(0, 2), Ok(vec![0x24]));
}

#[test]
fn first_sixteen_digits() {
    assert_eq!(
        get_bytes_from_pi(0, 16),
        Ok(vec![0x24, 0x3F, 0x6A, 0x88, 0x85, 0xA3, 0x08, 0xD3])
    );
}

#[test]
fn odd_offset_straddles_the_byte_grid() {
    assert_eq!(get_bytes_from_pi(1, 8), Ok(vec![0x43, 0xF6, 0xA8, 0x88]));
}

#[test]
fn every_offset_among_the_first_sixty_matches_pi() {
    for position in 0..=60usize {
        let expected = digits_to_bytes(&PI_HEX[position..position + 2]);
        assert_eq!(get_bytes_from_pi(position as u32, 2), Ok(expected));
    }
}

#[test]
fn digits_far_from_the_start() {
    assert_eq!(
        get_bytes_from_pi(1000, 16),
        Ok(vec![0x49, 0xF1, 0xC0, 0x9B, 0x07, 0x53, 0x72, 0xC9])
    );
    assert_eq!(get_bytes_from_pi(4095, 6), Ok(vec![0x25, 0xA0, 0x4A]));
    assert_eq!(get_bytes_from_pi(10000, 4), Ok(vec![0x8A, 0xC8]));
}

#[test]
fn digits_around_the_millionth() {
    assert_eq!(get_bytes_from_pi(999_999, 2), Ok(vec![0x26]));
    assert_eq!(get_bytes_from_pi(1_000_000, 4), Ok(vec![0x6C, 0x65]));
}

#[test]
fn zero_digits_give_no_bytes() {
    assert_eq!(get_bytes_from_pi(0, 0), Ok(vec![]));
    assert_eq!(get_bytes_from_pi(123, 0), Ok(vec![]));
    assert_eq!(get_bytes_from_pi(u32::MAX, 0), Ok(vec![]));
}

#[test]
fn result_has_half_as_many_bytes_as_digits() {
    for length in [0u32, 2, 4, 10, 30] {
        assert_eq!(get_bytes_from_pi(7, length).unwrap().len(), (length / 2) as usize);
    }
}

#[test]
fn odd_length_is_unsupported() {
    assert_eq!(get_bytes_from_pi(0, 1), Err(DecodeError::UnsupportedConfiguration));
    assert_eq!(get_bytes_from_pi(0, 3), Err(DecodeError::UnsupportedConfiguration));
    assert_eq!(get_bytes_from_pi(5, u32::MAX), Err(DecodeError::UnsupportedConfiguration));
}

#[test]
fn extract_computes_hexadecimal_digits_only() {
    assert_eq!(extract(0, 2, NumberBase::Hex), Ok(vec![0x24]));
    assert_eq!(extract(0, 2, NumberBase::Dec), Err(DecodeError::UnsupportedConfiguration));
    assert_eq!(extract(0, 2, NumberBase::Oct), Err(DecodeError::UnsupportedConfiguration));
    assert_eq!(extract(0, 2, NumberBase::Bin), Err(DecodeError::UnsupportedConfiguration));
    assert_eq!(extract(0, 2, NumberBase::Num(16)), Err(DecodeError::UnsupportedConfiguration));
    assert_eq!(extract(0, 0, NumberBase::Dec), Err(DecodeError::UnsupportedConfiguration));
    assert_eq!(extract(0, 3, NumberBase::Hex), Err(DecodeError::UnsupportedConfiguration));
    assert_eq!(extract(1, 8, NumberBase::Hex), get_bytes_from_pi(1, 8));
}

#[test]
fn extraction_is_deterministic() {
    for (position, length) in [(0u32, 2u32), (17, 12), (300, 4), (1, 0)] {
        assert_eq!(get_bytes_from_pi(position, length), get_bytes_from_pi(position, length));
    }
}

#[test]
fn extraction_is_continuous() {
    for (position, first, second) in [(0u32, 2u32, 2u32), (0, 4, 6), (3, 8, 2), (41, 0, 4), (100, 6, 0)] {
        let mut joined = get_bytes_from_pi(position, first).unwrap();
        joined.extend(get_bytes_from_pi(position + first, second).unwrap());
        assert_eq!(Ok(joined), get_bytes_from_pi(position, first + second));
    }
}

#[test]
fn series_exact_values() {
    assert_eq!(series::<1>(0), 8283137357820917);
    assert_eq!(series::<4>(0), 294470923372008548);
    assert_eq!(series::<5>(0), 236351857198437279);
    assert_eq!(series::<6>(0), 197515134877655773);
    assert_eq!(series::<1>(1), 132530197725134762);
    assert_eq!(series::<4>(2), 444658583789136323);
    assert_eq!(series::<5>(10), 77590457290871891);
    assert_eq!(series::<6>(1000), 562345052995368550);
    assert_eq!(series::<1>(1000), 467452165540839057);
}

#[test]
fn series_stays_below_one() {
    for position in 0..50u64 {
        for value in [
            series::<1>(position),
            series::<4>(position),
            series::<5>(position),
            series::<6>(position),
        ] {
            assert!(0 <= value && value < ONE);
        }
    }
}

#[test]
fn fraction_exact_values() {
    assert_eq!(fraction_at(0), 163245215218020496);
    assert_eq!(fraction_at(1), 306080434274633946);
    assert_eq!(fraction_at(2), 285600929966755126);
    assert_eq!(fraction_at(10), 734241981686391528);
    assert_eq!(fraction_at(1000), 333015725389461253);
}

#[test]
fn fraction_combines_the_four_series() {
    for position in [0u64, 1, 5, 64, 333] {
        let combined = 4 * series::<1>(position) - 2 * series::<4>(position)
            - series::<5>(position) - series::<6>(position);
        assert_eq!(fraction_at(position) as i64, combined.rem_euclid(ONE));
    }
}

#[test]
fn byte_is_the_top_two_digits_of_the_fraction() {
    for position in [0u64, 1, 2, 77, 512] {
        let fraction = fraction_at(position);
        assert_eq!(byte_at(position) as u64, fraction >> 52);
    }
    assert_eq!(byte_at(0), 0x24);
    assert_eq!(byte_at(1), 0x43);
    assert_eq!(byte_at(2), 0x3F);
}

#[test]
fn fraction_at_zero_spells_the_first_digits() {
    assert_eq!(format!("{:015X}", fraction_at(0)).get(..12), Some("243F6A8885A3"));
}
