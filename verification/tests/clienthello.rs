use autodpi::clienthello::{
    build_client_hello, build_client_hello_for_process, build_client_hello_for_reading,
    client_hello_with_random, find_sni_split_offset,
};

fn xorshift_random(mut seed: u64) -> Vec<u8> {
    let mut out = Vec::new();
    for _ in 0..4 {
        seed ^= seed >> 12;
        seed ^= seed << 25;
        seed ^= seed >> 27;
        out.extend_from_slice(&seed.wrapping_mul(0x2545F4914F6CDD1D).to_le_bytes());
    }
    out
}

#[test]
fn client_hello_is_a_wellformed_record() {
    let ch = build_client_hello("example.com");
    // record header
    assert_eq!(ch[0], 0x16, "content type must be handshake");
    let rec_len = u16::from_be_bytes([ch[3], ch[4]]) as usize;
    assert_eq!(rec_len, ch.len() - 5, "record length must match payload");
    // handshake header
    assert_eq!(ch[5], 0x01, "handshake type must be ClientHello");
    let hs_len = ((ch[6] as usize) << 16) | ((ch[7] as usize) << 8) | ch[8] as usize;
    assert_eq!(hs_len, ch.len() - 9, "handshake length must match body");
}

#[test]
fn sni_offset_lands_inside_hostname() {
    let host = "blocked.example.org";
    let ch = build_client_hello(host);
    let off = find_sni_split_offset(&ch).expect("should locate SNI");
    // The byte at the offset must be part of the hostname.
    let hpos = ch
        .windows(host.len())
        .position(|w| w == host.as_bytes())
        .expect("hostname present in hello");
    assert!(off > hpos && off < hpos + host.len(), "offset inside SNI");
}

#[test]
fn random_field_varies_between_hellos() {
    let a = build_client_hello("x.com");
    let b = build_client_hello("x.com");
    // random occupies bytes 11..43 (5 record + 4 hs + 2 version)
    assert_ne!(&a[11..43], &b[11..43], "client random should differ");
}

#[test]
fn non_clienthello_has_no_sni_offset() {
    assert_eq!(find_sni_split_offset(&[0x17, 0x03, 0x03, 0x00, 0x01, 0x00]), None);
    assert_eq!(find_sni_split_offset(&[]), None);
}

#[test]
fn hello_length_follows_hostname_length() {
    // 119 bytes of fixed fields plus the host name.
    assert_eq!(build_client_hello("example.com").len(), 130);
    assert_eq!(build_client_hello("").len(), 119);
}

#[test]
fn hello_with_given_random_has_exact_header() {
    let random = [7u8; 32];
    let ch = client_hello_with_random("ab", &random);
    assert_eq!(ch.len(), 121);
    assert_eq!(&ch[0..11], &[0x16, 0x03, 0x01, 0x00, 116, 0x01, 0x00, 0x00, 112, 0x03, 0x03]);
    assert_eq!(&ch[11..43], &random[..]);
    // empty session id, then 20 bytes of cipher suites
    assert_eq!(&ch[43..48], &[0x00, 0x00, 20, 0xc0, 0x2b]);
    // extensions length (2 + 49) and the server_name extension
    assert_eq!(&ch[68..81], &[0x00, 51, 0x00, 0x00, 0x00, 7, 0x00, 5, 0x00, 0x00, 2, b'a', b'b']);
    // last extension: signature_algorithms ends with rsa_pkcs1_sha512
    assert_eq!(&ch[ch.len() - 2..], &[0x06, 0x01]);
}

#[test]
fn sni_offset_is_middle_of_hostname() {
    let host = "blocked.example.org";
    let ch = build_client_hello(host);
    assert_eq!(find_sni_split_offset(&ch), Some(79 + host.len() / 2));
    assert_eq!(&ch[79..79 + host.len()], host.as_bytes());
}

#[test]
fn short_hostname_gives_no_offset() {
    assert_eq!(find_sni_split_offset(&build_client_hello("a")), None);
    assert_eq!(find_sni_split_offset(&build_client_hello("")), None);
    assert_eq!(find_sni_split_offset(&build_client_hello("ab")), Some(80));
}

#[test]
fn truncated_hello_has_no_offset() {
    let ch = build_client_hello("blocked.example.org");
    // cut before the end of the host name
    assert_eq!(find_sni_split_offset(&ch[..90]), None);
    // cut inside the fixed header
    assert_eq!(find_sni_split_offset(&ch[..40]), None);
    // wrong handshake type
    let mut other = ch.clone();
    other[5] = 0x02;
    assert_eq!(find_sni_split_offset(&other), None);
}

#[test]
fn sni_is_found_after_other_extensions() {
    // A hello whose extension list starts with an unrelated extension.
    let mut buf = vec![0x16, 0x03, 0x01, 0x00, 0x00, 0x01, 0x00, 0x00, 0x00, 0x03, 0x03];
    buf.extend_from_slice(&[0u8; 32]);
    buf.push(0); // session id
    buf.extend_from_slice(&[0x00, 0x02, 0x13, 0x01]); // one cipher suite
    buf.extend_from_slice(&[0x01, 0x00]); // null compression
    let ext: Vec<u8> = vec![
        0x00, 0x17, 0x00, 0x00, // extended_master_secret, empty
        0x00, 0x00, 0x00, 0x09, 0x00, 0x07, 0x00, 0x00, 0x04, b'h', b'o', b's', b't',
    ];
    buf.extend_from_slice(&(ext.len() as u16).to_be_bytes());
    let start = buf.len();
    buf.extend_from_slice(&ext);
    let name_start = start + 4 + 4 + 5;
    assert_eq!(find_sni_split_offset(&buf), Some(name_start + 2));
}

#[test]
fn hello_for_a_process_is_the_same_record_shape() {
    let a = build_client_hello_for_process("blocked.example.org", 4242);
    let b = build_client_hello("blocked.example.org");
    assert_eq!(a.len(), b.len());
    assert_eq!(&a[..11], &b[..11]);
    assert_eq!(&a[43..], &b[43..]);
    assert_eq!(find_sni_split_offset(&a), Some(88));
}

#[test]
fn hello_for_a_reading_mixes_clock_and_process_id() {
    let nanos: u128 = 1_700_000_000_123_456_789;
    let pid: u32 = 4242;
    let seed = (nanos as u64) ^ (pid as u64).wrapping_mul(0x2545F4914F6CDD1D);
    let random = xorshift_random(seed);
    let hello = build_client_hello_for_reading("blocked.example.org", Some(nanos), pid);
    assert_eq!(&hello[11..43], &random[..]);
    assert_eq!(hello, client_hello_with_random("blocked.example.org", &random));
    // Another process reading the same instant gets another random field.
    let other = build_client_hello_for_reading("blocked.example.org", Some(nanos), pid + 1);
    assert_ne!(&other[11..43], &hello[11..43]);
}

#[test]
fn hello_for_a_reading_before_the_epoch_uses_the_fallback_seed() {
    let random = xorshift_random(0x9E3779B97F4A7C15 ^ 7u64.wrapping_mul(0x2545F4914F6CDD1D));
    let hello = build_client_hello_for_reading("example.com", None, 7);
    assert_eq!(&hello[11..43], &random[..]);
    // Only the low 64 bits of the reading count.
    let wide = build_client_hello_for_reading("example.com", Some((1u128 << 64) + 5), 0);
    let narrow = build_client_hello_for_reading("example.com", Some(5), 0);
    assert_eq!(wide, narrow);
    assert_eq!(&narrow[11..43], &xorshift_random(5)[..]);
}
