use bitcoin_gcs::{reduce, siphash24};

const KEY: (u64, u64) = (0x0706050403020100, 0x0F0E0D0C0B0A0908);

#[test]
fn siphash24_of_empty_input_matches_reference_vector() {
    assert_eq!(siphash24(KEY, &[]), 0x726fdb47dd0e0e31);
}

#[test]
fn siphash24_of_fifteen_bytes_matches_reference_vector() {
    let message: Vec<u8> = (0u8..15).collect();
    assert_eq!(siphash24(KEY, &message), 0xa129ca6149be45e5);
}

#[test]
fn siphash24_depends_on_key_and_data() {
    let digest = siphash24(KEY, &[0]);
    assert_eq!(digest, 0x74f839c593dc67fd);
    assert_ne!(digest, siphash24((0, 0), &[0]));
    assert_ne!(digest, siphash24(KEY, &[1]));
    assert_eq!(digest, siphash24(KEY, &[0]));
}

#[test]
fn reduce_is_high_half_of_product() {
    assert_eq!(reduce(1 << 63, 10), 5);
    assert_eq!(reduce(1 << 32, 1 << 32), 1);
    assert_eq!(reduce(u64::MAX, u64::MAX), u64::MAX - 1);
    assert_eq!(reduce(u64::MAX, 1), 0);
    assert_eq!(reduce(0x8000_0000_0000_0001, 3), 1);
    assert_eq!(reduce(0xAAAA_AAAA_AAAA_AAAB, 3), 2);
}

#[test]
fn reduce_with_zero_modulus_is_zero() {
    assert_eq!(reduce(0, 0), 0);
    assert_eq!(reduce(12345, 0), 0);
    assert_eq!(reduce(u64::MAX, 0), 0);
}

#[test]
fn reduce_stays_below_modulus() {
    let moduli = [1u64, 2, 3, 1000, 3 << 20, u64::MAX];
    let inputs = [0u64, 1, 0x1234_5678_9ABC_DEF0, 1 << 63, u64::MAX - 1, u64::MAX];
    for m in moduli.iter() {
        for x in inputs.iter() {
            assert!(reduce(*x, *m) < *m);
        }
    }
}

#[test]
fn reduce_of_zero_is_zero() {
    assert_eq!(reduce(0, 1), 0);
    assert_eq!(reduce(0, u64::MAX), 0);
}
