use dn42_roa_generator::model::net::{IpAddr, Ipv4Addr};
use dn42_roa_generator::model::record::{bits_to_octets, Prefix};

#[test]
fn test_bits_to_octets() {
    // 192 (11000000)
    let bits = vec![1, 1, 0, 0, 0, 0, 0, 0];
    assert_eq!(bits_to_octets(&bits), vec![192]);

    // 192.168 (16 bits)
    let mut bits = vec![1, 1, 0, 0, 0, 0, 0, 0]; // 192
    bits.extend_from_slice(&[1, 0, 1, 0, 1, 0, 0, 0]); // 168
    assert_eq!(bits_to_octets(&bits), vec![192, 168]);

    // 1 -> 10000000 (128)
    let bits = vec![1];
    assert_eq!(bits_to_octets(&bits), vec![128]);
}

#[test]
fn test_from_str_v4() {
    let p: Prefix = "192.168.1.1/24".parse().unwrap();
    assert_eq!(*p.network(), IpAddr::V4(Ipv4Addr::new(192, 168, 1, 1)));
    assert_eq!(p.prefix_len(), 24);
}

#[test]
fn test_from_str_v6() {
    let p: Prefix = "2001:db8::1/64".parse().unwrap();
    assert_eq!(*p.network(), "2001:db8::1".parse::<IpAddr>().unwrap());
    assert_eq!(p.prefix_len(), 64);
}

#[test]
fn test_from_str_invalid() {
    assert!("192.168.1.1".parse::<Prefix>().is_err()); // Missing network length
    assert!("999.999.999.999/24".parse::<Prefix>().is_err()); // Invalid IP
    assert!("192.168.1.1/abc".parse::<Prefix>().is_err()); // Non-numeric length
    assert!("192.168.1.1/33".parse::<Prefix>().is_err()); // Invalid IPv4 length
    assert!("::1/129".parse::<Prefix>().is_err()); // Invalid IPv6 length
}

#[test]
fn test_get_bits() {
    let p: Prefix = "192.0.0.0/8".parse().unwrap();
    // 192 = 11000000
    let bits = p.get_bits();
    assert_eq!(bits, vec![1, 1, 0, 0, 0, 0, 0, 0]);
    assert_eq!(bits.len(), 8);

    let p2: Prefix = "255.255.0.0/10".parse().unwrap();
    let bits2 = p2.get_bits();
    assert_eq!(bits2, vec![1; 10]);
}

#[test]
fn test_with_prefix_len_shrinking() {
    let p: Prefix = "192.168.1.1/24".parse().unwrap();
    let new_p = p.with_prefix_len(16).unwrap();

    assert_eq!(new_p.prefix_len(), 16);
    assert_eq!(*new_p.network(), "192.168.0.0".parse::<IpAddr>().unwrap());
}

#[test]
fn test_with_prefix_len_expanding() {
    let p: Prefix = "192.168.0.0/16".parse().unwrap();
    let new_p = p.with_prefix_len(24).unwrap();

    assert_eq!(new_p.prefix_len(), 24);
    assert_eq!(*new_p.network(), "192.168.0.0".parse::<IpAddr>().unwrap());
}

#[test]
fn test_from_bits_v4() {
    let bits = vec![0, 0, 0, 0, 1, 0, 1, 0];
    let p = Prefix::from_bits_v4(&bits).unwrap();

    assert_eq!(p.prefix_len(), 8);
    assert_eq!(*p.network(), "10.0.0.0".parse::<IpAddr>().unwrap());
}

#[test]
fn test_from_bits_v6() {
    let p = Prefix::from_bits_v6(&[]).unwrap();
    assert_eq!(p.prefix_len(), 0);
    assert_eq!(*p.network(), "::".parse::<IpAddr>().unwrap());

    let bits = vec![1; 16];
    let p = Prefix::from_bits_v6(&bits).unwrap();
    assert_eq!(p.prefix_len(), 16);
    assert_eq!(*p.network(), "ffff::".parse::<IpAddr>().unwrap());
}

#[test]
fn test_display() {
    let p: Prefix = "10.10.10.10/32".parse().unwrap();
    assert_eq!(p.to_text(), "10.10.10.10/32");
}

#[test]
fn test_bits_to_octets_empty() {
    let bits = vec![];

    let octets = bits_to_octets(&bits);

    assert_eq!(octets.len(), 0);
}

#[test]
fn test_bits_to_octets_various_lengths() {
    // 2 bits: 11 -> 11000000 (192)
    assert_eq!(bits_to_octets(&[1, 1]), vec![192]);

    // 3 bits: 101 -> 10100000 (160)
    assert_eq!(bits_to_octets(&[1, 0, 1]), vec![160]);

    // 4 bits: 1111 -> 11110000 (240)
    assert_eq!(bits_to_octets(&[1, 1, 1, 1]), vec![240]);

    // 5 bits: 10101 -> 10101000 (168)
    assert_eq!(bits_to_octets(&[1, 0, 1, 0, 1]), vec![168]);

    // 9 bits: 11111111 1 -> 11111111 10000000 (255, 128)
    let bits = vec![1, 1, 1, 1, 1, 1, 1, 1, 1];
    assert_eq!(bits_to_octets(&bits), vec![255, 128]);

    // 17 bits
    let bits = vec![1, 1, 0, 0, 0, 0, 0, 0, 1, 0, 1, 0, 1, 0, 0, 0, 1];
    // 11000000 10101000 1 -> 192, 168, 128
    assert_eq!(bits_to_octets(&bits), vec![192, 168, 128]);
}

#[test]
fn test_from_bits_v4_empty() {
    let p = Prefix::from_bits_v4(&[]).unwrap();
    assert_eq!(p.prefix_len(), 0);
    assert_eq!(*p.network(), "0.0.0.0".parse::<IpAddr>().unwrap());
}

#[test]
fn test_from_bits_v4_exact_32_bits() {
    let bits = vec![1; 32];
    let p = Prefix::from_bits_v4(&bits).unwrap();
    assert_eq!(p.prefix_len(), 32);
    assert_eq!(*p.network(), "255.255.255.255".parse::<IpAddr>().unwrap());
}

#[test]
fn test_from_bits_v4_exceeds_limit() {
    let bits = vec![1; 33];
    assert!(Prefix::from_bits_v4(&bits).is_none());
}

#[test]
fn test_from_bits_v4_non_octet_boundary() {
    // 12 bits: 11000000 1010 -> 192.160.0.0/12
    let bits = vec![1, 1, 0, 0, 0, 0, 0, 0, 1, 0, 1, 0];
    let p = Prefix::from_bits_v4(&bits).unwrap();
    assert_eq!(p.prefix_len(), 12);
    assert_eq!(*p.network(), "192.160.0.0".parse::<IpAddr>().unwrap());
}

#[test]
fn test_from_bits_v4_single_bit() {
    let bits = vec![1];
    let p = Prefix::from_bits_v4(&bits).unwrap();
    assert_eq!(p.prefix_len(), 1);
    assert_eq!(*p.network(), "128.0.0.0".parse::<IpAddr>().unwrap());

    let bits = vec![0];
    let p = Prefix::from_bits_v4(&bits).unwrap();
    assert_eq!(p.prefix_len(), 1);
    assert_eq!(*p.network(), "0.0.0.0".parse::<IpAddr>().unwrap());
}

#[test]
fn test_from_bits_v6_exact_128_bits() {
    let bits = vec![1; 128];
    let p = Prefix::from_bits_v6(&bits).unwrap();
    assert_eq!(p.prefix_len(), 128);
    assert_eq!(*p.network(), "ffff:ffff:ffff:ffff:ffff:ffff:ffff:ffff".parse::<IpAddr>().unwrap());
}

#[test]
fn test_from_bits_v6_exceeds_limit() {
    let bits = vec![1; 129];
    assert!(Prefix::from_bits_v6(&bits).is_none());
}

#[test]
fn test_from_bits_v6_non_octet_boundary() {
    // 12 bits: 0010 0000 0001 -> 2010::/12
    let bits = vec![0, 0, 1, 0, 0, 0, 0, 0, 0, 0, 0, 1];
    let p = Prefix::from_bits_v6(&bits).unwrap();
    assert_eq!(p.prefix_len(), 12);
    // 0010 0000 0001 0000 (padding) -> 0x2010 -> 2010::
    assert_eq!(*p.network(), "2010::".parse::<IpAddr>().unwrap());
}

#[test]
fn test_from_bits_v6_64_bits() {
    let bits = vec![0, 0, 1, 0, 0, 0, 0, 0, 0, 0, 0, 0, 0, 0, 0, 1, // 2001
                    0, 0, 0, 0, 1, 1, 0, 1, 1, 0, 1, 1, 1, 0, 0, 0, // 0db8
                    0, 0, 0, 0, 0, 0, 0, 0, 0, 0, 0, 0, 0, 0, 0, 0, // 0000
                    0, 0, 0, 0, 0, 0, 0, 0, 0, 0, 0, 0, 0, 0, 0, 0]; // 0000
    let p = Prefix::from_bits_v6(&bits).unwrap();
    assert_eq!(p.prefix_len(), 64);
    assert_eq!(*p.network(), "2001:db8::".parse::<IpAddr>().unwrap());
}

#[test]
fn test_with_prefix_len_to_zero() {
    let p: Prefix = "192.168.1.1/24".parse().unwrap();
    let new_p = p.with_prefix_len(0).unwrap();

    assert_eq!(new_p.prefix_len(), 0);
    assert_eq!(*new_p.network(), "0.0.0.0".parse::<IpAddr>().unwrap());
}

#[test]
fn test_with_prefix_len_to_max_v4() {
    let p: Prefix = "192.168.1.0/24".parse().unwrap();
    let new_p = p.with_prefix_len(32).unwrap();

    assert_eq!(new_p.prefix_len(), 32);
    assert_eq!(*new_p.network(), "192.168.1.0".parse::<IpAddr>().unwrap());
}

#[test]
fn test_with_prefix_len_same_length() {
    let p: Prefix = "192.168.1.0/24".parse().unwrap();
    let new_p = p.with_prefix_len(24).unwrap();

    assert_eq!(new_p.prefix_len(), 24);
    assert_eq!(*new_p.network(), "192.168.1.0".parse::<IpAddr>().unwrap());
}

#[test]
fn test_with_prefix_len_v6_shrinking() {
    let p: Prefix = "2001:db8:abcd:ef01::/64".parse().unwrap();
    let new_p = p.with_prefix_len(48).unwrap();

    assert_eq!(new_p.prefix_len(), 48);
    assert_eq!(*new_p.network(), "2001:db8:abcd::".parse::<IpAddr>().unwrap());
}

#[test]
fn test_with_prefix_len_v6_expanding() {
    let p: Prefix = "2001:db8::/32".parse().unwrap();
    let new_p = p.with_prefix_len(64).unwrap();

    assert_eq!(new_p.prefix_len(), 64);
    assert_eq!(*new_p.network(), "2001:db8::".parse::<IpAddr>().unwrap());
}

#[test]
fn test_with_prefix_len_v6_to_max() {
    let p: Prefix = "2001:db8::1/64".parse().unwrap();
    let new_p = p.with_prefix_len(128).unwrap();

    assert_eq!(new_p.prefix_len(), 128);
    assert_eq!(*new_p.network(), "2001:db8::".parse::<IpAddr>().unwrap());
}

#[test]
fn test_with_prefix_len_non_octet_boundaries() {
    // Test various non-8-multiple boundaries
    let p: Prefix = "255.255.255.255/32".parse().unwrap();

    let p7 = p.with_prefix_len(7).unwrap();
    assert_eq!(*p7.network(), "254.0.0.0".parse::<IpAddr>().unwrap());

    let p9 = p.with_prefix_len(9).unwrap();
    assert_eq!(*p9.network(), "255.128.0.0".parse::<IpAddr>().unwrap());

    let p17 = p.with_prefix_len(17).unwrap();
    assert_eq!(*p17.network(), "255.255.128.0".parse::<IpAddr>().unwrap());
}

#[test]
fn test_get_bits_zero_length() {
    let p: Prefix = "192.168.1.1/0".parse().unwrap();
    let bits = p.get_bits();
    assert_eq!(bits.len(), 0);
}

#[test]
fn test_get_bits_max_length_v4() {
    let p: Prefix = "255.255.255.255/32".parse().unwrap();
    let bits = p.get_bits();
    assert_eq!(bits.len(), 32);
    assert_eq!(bits, vec![1; 32]);
}

#[test]
fn test_get_bits_max_length_v6() {
    let p: Prefix = "ffff:ffff:ffff:ffff:ffff:ffff:ffff:ffff/128".parse().unwrap();
    let bits = p.get_bits();
    assert_eq!(bits.len(), 128);
    assert_eq!(bits, vec![1; 128]);
}

#[test]
fn test_get_bits_v6_partial() {
    let p: Prefix = "2001:db8::/32".parse().unwrap();
    let bits = p.get_bits();
    assert_eq!(bits.len(), 32);
    // 2001 = 0010 0000 0000 0001
    // 0db8 = 0000 1101 1011 1000
    let expected = vec![
        0, 0, 1, 0, 0, 0, 0, 0, 0, 0, 0, 0, 0, 0, 0, 1,
        0, 0, 0, 0, 1, 1, 0, 1, 1, 0, 1, 1, 1, 0, 0, 0,
    ];
    assert_eq!(bits, expected);
}

#[test]
fn test_get_bits_pattern_recognition() {
    let p: Prefix = "170.170.0.0/16".parse().unwrap();
    let bits = p.get_bits();
    // 170 = 10101010
    assert_eq!(bits, vec![1, 0, 1, 0, 1, 0, 1, 0, 1, 0, 1, 0, 1, 0, 1, 0]);
}

#[test]
fn test_roundtrip_from_bits_get_bits_v4() {
    let original_bits = vec![1, 1, 0, 0, 0, 0, 0, 0, 1, 0, 1, 0, 1, 0, 0, 0];
    let p = Prefix::from_bits_v4(&original_bits).unwrap();
    let retrieved_bits = p.get_bits();

    assert_eq!(original_bits, retrieved_bits);
}

#[test]
fn test_roundtrip_from_bits_get_bits_v6() {
    let original_bits = vec![0, 0, 1, 0, 0, 0, 0, 0, 0, 0, 0, 0, 0, 0, 0, 1];
    let p = Prefix::from_bits_v6(&original_bits).unwrap();
    let retrieved_bits = p.get_bits();

    assert_eq!(original_bits, retrieved_bits);
}

#[test]
fn test_roundtrip_with_prefix_len_get_bits() {
    let p: Prefix = "192.168.1.128/25".parse().unwrap();
    let new_p = p.with_prefix_len(24).unwrap();
    let bits = new_p.get_bits();

    // Should have exactly 24 bits
    assert_eq!(bits.len(), 24);

    // Reconstruct and verify
    let reconstructed = Prefix::from_bits_v4(&bits).unwrap();
    assert_eq!(*reconstructed.network(), *new_p.network());
    assert_eq!(reconstructed.prefix_len(), new_p.prefix_len());
}
#[test]
fn test_from_str_v4_boundary_values() {
    assert!("0.0.0.0/0".parse::<Prefix>().is_ok());
    assert!("255.255.255.255/32".parse::<Prefix>().is_ok());
    assert!("192.168.1.1/1".parse::<Prefix>().is_ok());
    assert!("192.168.1.1/31".parse::<Prefix>().is_ok());
}

#[test]
fn test_from_str_v6_boundary_values() {
    assert!("::/0".parse::<Prefix>().is_ok());
    assert!("ffff:ffff:ffff:ffff:ffff:ffff:ffff:ffff/128".parse::<Prefix>().is_ok());
    assert!("2001:db8::1/1".parse::<Prefix>().is_ok());
    assert!("2001:db8::1/127".parse::<Prefix>().is_ok());
}

#[test]
fn test_from_str_malformed() {
    assert!("/24".parse::<Prefix>().is_err());
    assert!("192.168.1.1/".parse::<Prefix>().is_err());
    assert!("192.168.1.1/24/32".parse::<Prefix>().is_err());
    assert!("".parse::<Prefix>().is_err());
    assert!("192.168.1.1/-1".parse::<Prefix>().is_err());
    assert!("192.168.1.1/256".parse::<Prefix>().is_err());
}
#[test]
fn test_special_addresses() {
    // Loopback
    let p: Prefix = "127.0.0.1/8".parse().unwrap();
    assert_eq!(*p.network(), "127.0.0.1".parse::<IpAddr>().unwrap());

    // IPv6 loopback
    let p6: Prefix = "::1/128".parse().unwrap();
    assert_eq!(*p6.network(), "::1".parse::<IpAddr>().unwrap());

    // Unspecified
    let p_unspec: Prefix = "0.0.0.0/0".parse::<Prefix>().unwrap();
    assert_eq!(*p_unspec.network(), "0.0.0.0".parse::<IpAddr>().unwrap());

    // IPv6 unspecified
    let p6_unspec: Prefix = "::/0".parse::<Prefix>().unwrap();
    assert_eq!(*p6_unspec.network(), "::".parse::<IpAddr>().unwrap());
}
#[test]
fn test_display_v6() {
    let p: Prefix = "2001:db8::1/64".parse().unwrap();
    assert_eq!(p.to_text(), "2001:db8::1/64");

    let p2: Prefix = "::/0".parse().unwrap();
    assert_eq!(p2.to_text(), "::/0");
}

#[test]
fn test_display_various_lengths() {
    assert_eq!("192.168.0.0/0".parse::<Prefix>().unwrap().to_text(), "192.168.0.0/0");
    assert_eq!("192.168.0.0/16".parse::<Prefix>().unwrap().to_text(), "192.168.0.0/16");
    assert_eq!("10.0.0.0/8".parse::<Prefix>().unwrap().to_text(), "10.0.0.0/8");
}

#[test]
fn test_complex_workflow() {
    // Parse -> modify -> get bits -> reconstruct
    let p1: Prefix = "192.168.128.0/17".parse().unwrap();
    let p2 = p1.with_prefix_len(20).unwrap();
    let bits = p2.get_bits();
    let p3 = Prefix::from_bits_v4(&bits).unwrap();

    assert_eq!(p2, p3);
    assert_eq!(p3.prefix_len(), 20);
}

#[test]
fn test_prefix_len_expansion_preserves_zeros() {
    let p: Prefix = "192.168.0.0/16".parse().unwrap();
    let expanded = p.with_prefix_len(24).unwrap();

    // Expansion should add zeros
    assert_eq!(*expanded.network(), "192.168.0.0".parse::<IpAddr>().unwrap());
    assert_eq!(expanded.prefix_len(), 24);

    let bits = expanded.get_bits();
    // Last 8 bits should be 0
    assert_eq!(&bits[16..24], &[0, 0, 0, 0, 0, 0, 0, 0]);
}

#[test]
fn test_all_zeros_all_ones() {
    // All zeros
    let p_zeros = Prefix::from_bits_v4(&vec![0; 24]).unwrap();
    assert_eq!(*p_zeros.network(), "0.0.0.0".parse::<IpAddr>().unwrap());

    // All ones
    let p_ones = Prefix::from_bits_v4(&vec![1; 24]).unwrap();
    assert_eq!(*p_ones.network(), "255.255.255.0".parse::<IpAddr>().unwrap());
}

#[test]
fn test_alternating_bits() {
    // 10101010 (170)
    let bits = vec![1, 0, 1, 0, 1, 0, 1, 0];
    let p = Prefix::from_bits_v4(&bits).unwrap();
    assert_eq!(*p.network(), "170.0.0.0".parse::<IpAddr>().unwrap());

    // 01010101 (85)
    let bits2 = vec![0, 1, 0, 1, 0, 1, 0, 1];
    let p2 = Prefix::from_bits_v4(&bits2).unwrap();
    assert_eq!(*p2.network(), "85.0.0.0".parse::<IpAddr>().unwrap());
}
