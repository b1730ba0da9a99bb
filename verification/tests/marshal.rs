use libnss::host::{addr_from_raw, family_from_c, AddressFamily, Addresses, CHost, Host, IpAddress};
use libnss::interop::CBuffer;

fn sample_host_v4() -> Host {
    Host {
        name: b"example.com".to_vec(),
        aliases: vec![b"www".to_vec(), b"web".to_vec()],
        addresses: Addresses::V4(vec![[127, 0, 0, 1], [10, 0, 0, 2]]),
    }
}

fn sample_host_v6() -> Host {
    Host {
        name: b"six.example".to_vec(),
        aliases: vec![b"v6".to_vec()],
        addresses: Addresses::V6(vec![[
            0x20, 0x01, 0x0d, 0xb8, 0, 0, 0, 0, 0, 0, 0, 0, 0, 0, 0, 0x42,
        ]]),
    }
}

fn blank_header() -> CHost {
    CHost { name: 0, h_aliases: 0, h_addrtype: 0, h_length: 0, h_addr_list: 0 }
}

fn read_word(d: &[u8], at: usize) -> u64 {
    let mut v: u64 = 0;
    let mut i = 8;
    while i > 0 {
        i -= 1;
        v = v * 256 + d[at + i] as u64;
    }
    v
}

#[test]
fn marshalled_layout_has_terminated_tables() {
    // name: 12 bytes, alias table: 3 slots + "www\0" + "web\0",
    // address table: 3 slots + 2 * 4 raw bytes
    let host = sample_host_v4();
    let size = host.required_size();
    assert_eq!(size, 12 + (24 + 4 + 4) + (24 + 8));
    let mut buffer = CBuffer::new(vec![0u8; size + 5]);
    buffer.clear();
    let mut header = blank_header();
    host.to_c_hostent(&mut header, &mut buffer);
    assert_eq!(buffer.pos, size);

    let d = buffer.data.as_slice();
    // the name lies first, NUL-terminated
    assert_eq!(header.name, 0);
    assert_eq!(&d[0..12], b"example.com\0");
    // family tag and width match libc's constants for IPv4
    assert_eq!(header.h_addrtype, libc::AF_INET);
    assert_eq!(header.h_length, 4);
    // alias table: two slots pointing at NUL-terminated aliases, then zero
    let a = header.h_aliases;
    assert_eq!(a, 12);
    let w0 = read_word(d, a) as usize;
    let w1 = read_word(d, a + 8) as usize;
    assert_eq!(read_word(d, a + 16), 0);
    assert!(w0 > 0 && w0 + 4 <= size);
    assert!(w1 > 0 && w1 + 4 <= size);
    assert_eq!(&d[w0..w0 + 4], b"www\0");
    assert_eq!(&d[w1..w1 + 4], b"web\0");
    // address table: two slots pointing at raw 4-byte addresses, then zero
    let t = header.h_addr_list;
    assert_eq!(t, 12 + 24 + 8);
    let p0 = read_word(d, t) as usize;
    let p1 = read_word(d, t + 8) as usize;
    assert_eq!(read_word(d, t + 16), 0);
    assert!(p0 > 0 && p0 + 4 <= size);
    assert!(p1 > 0 && p1 + 4 <= size);
    assert_eq!(&d[p0..p0 + 4], &[127, 0, 0, 1]);
    assert_eq!(&d[p1..p1 + 4], &[10, 0, 0, 2]);
    // bytes past the record are untouched zeros from clear
    assert_eq!(&d[size..size + 5], &[0, 0, 0, 0, 0]);
}

#[test]
fn capacity_boundary_is_exact() {
    // one byte short is refused with nothing written
    let host = sample_host_v4();
    let size = host.required_size();
    let mut buffer = CBuffer::new(vec![0u8; size - 1]);
    buffer.clear();
    let mut header = blank_header();
    assert!(!host.try_to_c_hostent(&mut header, &mut buffer));
    assert_eq!(buffer.pos, 0);
    assert!(buffer.data.iter().all(|b| *b == 0));
    assert_eq!(header.h_addrtype, 0);

    // exactly the minimum size succeeds
    let host = sample_host_v4();
    let mut buffer = CBuffer::new(vec![0u8; size]);
    buffer.clear();
    let mut header = blank_header();
    assert!(host.try_to_c_hostent(&mut header, &mut buffer));
    assert_eq!(buffer.pos, size);
    assert_eq!(header.h_addrtype, libc::AF_INET);
}

#[test]
fn embedded_nul_is_refused() {
    let host = Host {
        name: b"bad\0name".to_vec(),
        aliases: vec![],
        addresses: Addresses::V4(vec![[1, 2, 3, 4]]),
    };
    let size = host.required_size();
    let mut buffer = CBuffer::new(vec![0u8; size]);
    let mut header = blank_header();
    assert!(!host.try_to_c_hostent(&mut header, &mut buffer));

    let host = Host {
        name: b"goodname".to_vec(),
        aliases: vec![b"ali\0as".to_vec()],
        addresses: Addresses::V4(vec![[1, 2, 3, 4]]),
    };
    let size = host.required_size();
    let mut buffer = CBuffer::new(vec![0u8; size]);
    let mut header = blank_header();
    assert!(!host.try_to_c_hostent(&mut header, &mut buffer));
}

#[test]
fn clear_then_marshal_twice_is_byte_identical() {
    // dirty region, cleared and marshalled
    let host = sample_host_v4();
    let size = host.required_size();
    let mut buffer = CBuffer::new(vec![0xAAu8; size + 7]);
    buffer.clear();
    let mut header = blank_header();
    host.to_c_hostent(&mut header, &mut buffer);
    let first = buffer.data.clone();

    // the same buffer again: clear, then the same record
    let host = sample_host_v4();
    let mut buffer = CBuffer::new(buffer.data);
    buffer.clear();
    let mut header = blank_header();
    host.to_c_hostent(&mut header, &mut buffer);
    assert_eq!(buffer.data, first);
}

#[test]
fn family_mismatch_is_not_found_never_fatal() {
    // 4 raw bytes tagged with the IPv6 family constant: rejected, no abort
    let raw = vec![1u8, 2, 3, 4];
    assert!(addr_from_raw(&raw, libc::AF_INET6).is_none());
    // 16 raw bytes tagged IPv4: rejected too
    let raw16 = vec![0u8; 16];
    assert!(addr_from_raw(&raw16, libc::AF_INET).is_none());
    // an unknown tag is rejected whatever the length
    assert!(addr_from_raw(&raw, 99).is_none());
    // the matching combinations are accepted
    match addr_from_raw(&raw, libc::AF_INET) {
        Some(IpAddress::V4(a)) => assert_eq!(a, [1, 2, 3, 4]),
        _ => panic!("4 bytes tagged AF_INET must parse as IPv4"),
    }
    match addr_from_raw(&raw16, libc::AF_INET6) {
        Some(IpAddress::V6(a)) => assert_eq!(a, [0u8; 16]),
        _ => panic!("16 bytes tagged AF_INET6 must parse as IPv6"),
    }
}

#[test]
fn marshalled_address_round_trips() {
    let host = sample_host_v6();
    let original = [0x20u8, 0x01, 0x0d, 0xb8, 0, 0, 0, 0, 0, 0, 0, 0, 0, 0, 0, 0x42];
    let size = host.required_size();
    let mut buffer = CBuffer::new(vec![0u8; size]);
    buffer.clear();
    let mut header = blank_header();
    host.to_c_hostent(&mut header, &mut buffer);
    assert_eq!(header.h_addrtype, libc::AF_INET6);
    assert_eq!(header.h_length, 16);
    let d = buffer.data.as_slice();
    let p = read_word(d, header.h_addr_list) as usize;
    let raw = d[p..p + header.h_length as usize].to_vec();
    match addr_from_raw(&raw, header.h_addrtype) {
        Some(IpAddress::V6(a)) => assert_eq!(a, original),
        _ => panic!("raw bytes under the declared width and tag must give the address back"),
    }
}

#[test]
fn family_tags_decode() {
    assert!(matches!(family_from_c(libc::AF_INET), Some(AddressFamily::IPv4)));
    assert!(matches!(family_from_c(libc::AF_INET6), Some(AddressFamily::IPv6)));
    assert!(matches!(family_from_c(libc::AF_UNSPEC), Some(AddressFamily::Unspecified)));
    assert!(matches!(family_from_c(7), None));
}

#[test]
fn empty_record_parts_still_terminate() {
    // no aliases, one address: one sentinel-only alias table
    let host = Host {
        name: b"x".to_vec(),
        aliases: vec![],
        addresses: Addresses::V4(vec![[9, 9, 9, 9]]),
    };
    let size = host.required_size();
    assert_eq!(size, 2 + 8 + (16 + 4));
    let mut buffer = CBuffer::new(vec![0u8; size]);
    buffer.clear();
    let mut header = blank_header();
    host.to_c_hostent(&mut header, &mut buffer);
    let d = buffer.data.as_slice();
    assert_eq!(read_word(d, header.h_aliases), 0);
    let p = read_word(d, header.h_addr_list) as usize;
    assert_eq!(&d[p..p + 4], &[9, 9, 9, 9]);
}
