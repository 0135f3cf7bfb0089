use geph_nat::packet::checksums_valid;
use geph_nat::Endpoint;
use geph_nat::GephNat;

// Reference Internet checksum (RFC 1071), written independently of the
// library: ones'-complement sum of big-endian 16-bit words.
fn ref_checksum(data: &[u8]) -> u16 {
    let mut sum: u32 = 0;
    let mut i = 0;
    while i + 1 < data.len() {
        sum += ((data[i] as u32) << 8) | data[i + 1] as u32;
        i += 2;
    }
    if data.len() % 2 == 1 {
        sum += (data[data.len() - 1] as u32) << 8;
    }
    while sum >> 16 != 0 {
        sum = (sum >> 16) + (sum & 0xFFFF);
    }
    !(sum as u16)
}

fn put2(b: &mut [u8], i: usize, v: u16) {
    b[i] = (v >> 8) as u8;
    b[i + 1] = v as u8;
}

fn get2(b: &[u8], i: usize) -> u16 {
    ((b[i] as u16) << 8) | b[i + 1] as u16
}

fn put4(b: &mut [u8], i: usize, v: u32) {
    b[i] = (v >> 24) as u8;
    b[i + 1] = (v >> 16) as u8;
    b[i + 2] = (v >> 8) as u8;
    b[i + 3] = v as u8;
}

fn get4(b: &[u8], i: usize) -> u32 {
    ((b[i] as u32) << 24) | ((b[i + 1] as u32) << 16) | ((b[i + 2] as u32) << 8) | b[i + 3] as u32
}

fn ip_ref_cksum(b: &[u8], hl: usize) -> u16 {
    let mut h = b[..hl].to_vec();
    h[10] = 0;
    h[11] = 0;
    ref_checksum(&h)
}

fn transport_ref_cksum(b: &[u8], hl: usize, ck_off: usize) -> u16 {
    let mut data = Vec::new();
    data.extend_from_slice(&b[12..20]);
    data.push(0);
    data.push(b[9]);
    let sl = b.len() - hl;
    data.push((sl >> 8) as u8);
    data.push(sl as u8);
    let mut seg = b[hl..].to_vec();
    seg[ck_off] = 0;
    seg[ck_off + 1] = 0;
    data.extend_from_slice(&seg);
    ref_checksum(&data)
}

fn build_tcp_packet(src_ip: u32, sport: u16, dst_ip: u32, dport: u16, payload: &[u8]) -> Vec<u8> {
    let total = 40 + payload.len();
    let mut b = vec![0u8; total];
    b[0] = 0x45;
    put2(&mut b, 2, total as u16);
    b[8] = 64;
    b[9] = 6;
    put4(&mut b, 12, src_ip);
    put4(&mut b, 16, dst_ip);
    put2(&mut b, 20, sport);
    put2(&mut b, 22, dport);
    b[32] = 0x50;
    b[40..].copy_from_slice(payload);
    let tc = transport_ref_cksum(&b, 20, 16);
    put2(&mut b, 36, tc);
    let ic = ip_ref_cksum(&b, 20);
    put2(&mut b, 10, ic);
    b
}

fn build_udp_packet(src_ip: u32, sport: u16, dst_ip: u32, dport: u16, payload: &[u8]) -> Vec<u8> {
    let total = 28 + payload.len();
    let mut b = vec![0u8; total];
    b[0] = 0x45;
    put2(&mut b, 2, total as u16);
    b[8] = 64;
    b[9] = 17;
    put4(&mut b, 12, src_ip);
    put4(&mut b, 16, dst_ip);
    put2(&mut b, 20, sport);
    put2(&mut b, 22, dport);
    put2(&mut b, 24, (8 + payload.len()) as u16);
    b[28..].copy_from_slice(payload);
    let tc = transport_ref_cksum(&b, 20, 6);
    put2(&mut b, 26, tc);
    let ic = ip_ref_cksum(&b, 20);
    put2(&mut b, 10, ic);
    b
}

fn build_icmp_packet(src_ip: u32, dst_ip: u32) -> Vec<u8> {
    let mut b = vec![0u8; 28];
    b[0] = 0x45;
    put2(&mut b, 2, 28);
    b[8] = 64;
    b[9] = 1;
    put4(&mut b, 12, src_ip);
    put4(&mut b, 16, dst_ip);
    b[20] = 8;
    let ic = ip_ref_cksum(&b, 20);
    put2(&mut b, 10, ic);
    b
}

fn external_ip() -> u32 {
    0x01020304
}

fn internal_ip() -> u32 {
    0x0A000001
}

fn remote_ip() -> u32 {
    0x5D000001
}

// End-to-end TCP mangling: the upstream-mangled packet carries the NAT's
// external source address, the port the table assigned, and checksums that
// validate against the new header values.
#[test]
fn mangle_tcp_upstream_end_to_end() {
    let mut nat = GephNat::new(100, external_ip());
    let pkt = build_tcp_packet(internal_ip(), 1100, remote_ip(), 80, b"hello");
    assert!(checksums_valid(&pkt));
    let out = nat.mangle_upstream_pkt(&pkt).unwrap();
    assert_eq!(out.len(), pkt.len());
    assert_eq!(get4(&out, 12), external_ip());
    let p = get2(&out, 20);
    assert!(p >= 2000);
    // the port in the packet is the port the table assigned
    let src = Endpoint { ip: internal_ip(), port: 1100 };
    let dst = Endpoint { ip: remote_ip(), port: 80 };
    assert_eq!(
        nat.rewrite_upstream_src(src, dst),
        Some(Endpoint { ip: external_ip(), port: p })
    );
    // destination and payload untouched
    assert_eq!(get4(&out, 16), remote_ip());
    assert_eq!(get2(&out, 22), 80);
    assert_eq!(&out[40..], b"hello");
    // both checksums validate, by the library and by an independent
    // recomputation
    assert!(checksums_valid(&out));
    assert_eq!(get2(&out, 10), ip_ref_cksum(&out, 20));
    assert_eq!(get2(&out, 36), transport_ref_cksum(&out, 20, 16));
    // cross-check the IP checksum against pnet's own packet-level function
    let parsed = pnet_packet::ipv4::Ipv4Packet::new(&out).unwrap();
    assert_eq!(get2(&out, 10), pnet_packet::ipv4::checksum(&parsed));
}

// Mutating address or port fields without recomputing checksums must fail
// validation: the repair step is necessary.
#[test]
fn checksum_invalidation_detection() {
    let pkt = build_tcp_packet(internal_ip(), 1100, remote_ip(), 80, b"hello");
    assert!(checksums_valid(&pkt));

    let mut ip_mutated = pkt.clone();
    put4(&mut ip_mutated, 12, external_ip());
    assert!(!checksums_valid(&ip_mutated));

    let mut port_mutated = pkt.clone();
    put2(&mut port_mutated, 20, 23456);
    assert!(!checksums_valid(&port_mutated));
}

// A UDP packet is mangled like a TCP one, with the checksum at its UDP
// offset repaired over the new pseudo header.
#[test]
fn mangle_udp_upstream() {
    let mut nat = GephNat::new(100, external_ip());
    let pkt = build_udp_packet(internal_ip(), 5353, remote_ip(), 53, b"q");
    assert!(checksums_valid(&pkt));
    let out = nat.mangle_upstream_pkt(&pkt).unwrap();
    assert_eq!(get4(&out, 12), external_ip());
    assert!(get2(&out, 20) >= 2000);
    assert_eq!(get2(&out, 22), 53);
    assert!(checksums_valid(&out));
    assert_eq!(get2(&out, 10), ip_ref_cksum(&out, 20));
    assert_eq!(get2(&out, 26), transport_ref_cksum(&out, 20, 6));
}

// TCP round trip through packet mangling: a downstream reply addressed to
// the assigned slot comes back readdressed to the original internal socket.
#[test]
fn mangle_tcp_round_trip() {
    let mut nat = GephNat::new(100, external_ip());
    let pkt = build_tcp_packet(internal_ip(), 1100, remote_ip(), 80, b"hello");
    let out = nat.mangle_upstream_pkt(&pkt).unwrap();
    let p = get2(&out, 20);
    let reply = build_tcp_packet(remote_ip(), 80, external_ip(), p, b"world");
    let back = nat.mangle_downstream_pkt(&reply).unwrap();
    assert_eq!(get4(&back, 16), internal_ip());
    assert_eq!(get2(&back, 22), 1100);
    assert_eq!(get4(&back, 12), remote_ip());
    assert_eq!(get2(&back, 20), 80);
    assert_eq!(&back[40..], b"world");
    assert!(checksums_valid(&back));
    assert_eq!(get2(&back, 10), ip_ref_cksum(&back, 20));
    assert_eq!(get2(&back, 36), transport_ref_cksum(&back, 20, 16));
}

// A protocol without ports (ICMP here) passes through the no-port class:
// only the addresses are rewritten, and only the IP checksum is repaired.
#[test]
fn mangle_icmp_round_trip() {
    let mut nat = GephNat::new(100, external_ip());
    let pkt = build_icmp_packet(internal_ip(), remote_ip());
    let out = nat.mangle_upstream_pkt(&pkt).unwrap();
    assert_eq!(get4(&out, 12), external_ip());
    assert_eq!(get4(&out, 16), remote_ip());
    assert!(checksums_valid(&out));
    assert_eq!(get2(&out, 10), ip_ref_cksum(&out, 20));
    let reply = build_icmp_packet(remote_ip(), external_ip());
    let back = nat.mangle_downstream_pkt(&reply).unwrap();
    assert_eq!(get4(&back, 16), internal_ip());
    assert_eq!(get4(&back, 12), remote_ip());
    assert!(checksums_valid(&back));
}

// Unparseable buffers are reported as nothing, not mangled.
#[test]
fn mangle_rejects_unparseable() {
    let mut nat = GephNat::new(100, external_ip());
    assert_eq!(nat.mangle_upstream_pkt(&[0u8; 10]), None);
    assert_eq!(nat.mangle_downstream_pkt(&[0u8; 19]), None);
    // header length field pointing past the buffer
    let mut bad = build_tcp_packet(internal_ip(), 1100, remote_ip(), 80, b"");
    bad[0] = 0x4F;
    assert_eq!(nat.mangle_upstream_pkt(&bad), None);
    // truncated TCP header
    let short = &build_tcp_packet(internal_ip(), 1100, remote_ip(), 80, b"")[..30];
    assert_eq!(nat.mangle_upstream_pkt(short), None);
}

// A downstream packet for a slot nothing was assigned to is dropped.
#[test]
fn mangle_downstream_unmapped_drop() {
    let mut nat = GephNat::new(100, external_ip());
    let reply = build_tcp_packet(remote_ip(), 80, external_ip(), 59999, b"x");
    assert_eq!(nat.mangle_downstream_pkt(&reply), None);
}
