//! Raw IPv4 packet handling: big-endian field access on byte buffers, the
//! parse conditions the NAT needs, and checksum repair and validation.
//!
//! The Internet checksum itself is computed by an outside routine; its value
//! is named by the uninterpreted `checksum_of`, and everything around it —
//! which bytes are summed, where the result is written, that a repaired
//! packet validates — is verified.

use vstd::prelude::*;

verus! {

/// The IPv4 protocol number of TCP.
pub const PROTO_TCP: u8 = 6;

/// The IPv4 protocol number of UDP.
pub const PROTO_UDP: u8 = 17;

/// The big-endian 16-bit value at offset `i`.
pub open spec fn spec_read2(b: Seq<u8>, i: int) -> int {
    (b[i] as int) * 256 + (b[i + 1] as int)
}

/// The big-endian 32-bit value at offset `i`.
pub open spec fn spec_read4(b: Seq<u8>, i: int) -> int {
    spec_read2(b, i) * 65536 + spec_read2(b, i + 2)
}

/// `b` with the big-endian 16-bit value `v` written at offset `i`.
pub open spec fn spec_write2(b: Seq<u8>, i: int, v: u16) -> Seq<u8> {
    b.update(i, (v / 256) as u8).update(i + 1, (v % 256) as u8)
}

/// `b` with the big-endian 32-bit value `v` written at offset `i`.
pub open spec fn spec_write4(b: Seq<u8>, i: int, v: u32) -> Seq<u8> {
    spec_write2(spec_write2(b, i, (v / 65536) as u16), i + 2, (v % 65536) as u16)
}

/// The IPv4 header length in bytes: the low nibble of the first byte, in
/// 32-bit words.
pub open spec fn ipv4_header_len(b: Seq<u8>) -> int {
    (b[0] as int % 16) * 4
}

/// The buffer holds an IPv4 datagram the NAT can work on: the fixed header
/// fits, the stated header length is sane, and the whole datagram fits the
/// 16-bit IPv4 length domain.
pub open spec fn ipv4_parseable(b: Seq<u8>) -> bool {
    &&& 20 <= b.len() <= 65535
    &&& 20 <= ipv4_header_len(b) <= b.len()
}

/// `ipv4_parseable`, and the transport header of a TCP or UDP datagram is
/// not truncated.
pub open spec fn mangle_parseable(b: Seq<u8>) -> bool {
    &&& ipv4_parseable(b)
    &&& (b[9] == PROTO_TCP ==> ipv4_header_len(b) + 20 <= b.len())
    &&& (b[9] == PROTO_UDP ==> ipv4_header_len(b) + 8 <= b.len())
}

/// The Internet ones'-complement checksum of `data` with the 16-bit word at
/// index `skipword` left out of the sum. The value is computed by an outside
/// routine; this name stands for it in contracts.
pub uninterp spec fn checksum_of(data: Seq<u8>, skipword: int) -> u16;

/// Relies on pnet_packet::util::checksum: the Internet checksum of `data`,
/// skipping the 16-bit word at index `skipword`; a total, pure function of
/// its two arguments, which `checksum_of` names. The length bound keeps the
/// routine's 32-bit accumulator far from overflow.
#[verifier::external_body]
fn internet_checksum(data: &Vec<u8>, skipword: usize) -> (r: u16)
    requires
        data@.len() <= 65548,
    ensures
        r == checksum_of(data@, skipword as int),
{
    pnet_packet::util::checksum(data.as_slice(), skipword)
}

/// The bytes the IPv4 header checksum is computed over: the header with its
/// checksum field zeroed.
pub open spec fn ip_cksum_data(b: Seq<u8>) -> Seq<u8> {
    spec_write2(b, 10, 0u16).subrange(0, ipv4_header_len(b))
}

/// The correct IPv4 header checksum of `b`.
pub open spec fn ip_cksum(b: Seq<u8>) -> u16 {
    checksum_of(ip_cksum_data(b), 5)
}

/// The length of the transport segment: everything after the IPv4 header.
pub open spec fn seg_len(b: Seq<u8>) -> int {
    b.len() - ipv4_header_len(b)
}

/// The TCP/UDP pseudo header over which the transport checksum is computed:
/// source and destination addresses, a zero byte, the protocol, and the
/// segment length.
pub open spec fn spec_pseudo_header(b: Seq<u8>) -> Seq<u8> {
    b.subrange(12, 20) + seq![
        0u8,
        b[9],
        (seg_len(b) / 256) as u8,
        (seg_len(b) % 256) as u8,
    ]
}

/// The bytes the transport checksum is computed over: the pseudo header,
/// then the segment with its checksum field (at `ck_off` into the transport
/// header) zeroed.
pub open spec fn transport_cksum_data(b: Seq<u8>, ck_off: int) -> Seq<u8> {
    spec_pseudo_header(b) + spec_write2(b, ipv4_header_len(b) + ck_off, 0u16).subrange(
        ipv4_header_len(b),
        b.len() as int,
    )
}

/// The correct transport checksum of `b` for a checksum field at `ck_off`
/// into the transport header.
pub open spec fn transport_cksum(b: Seq<u8>, ck_off: int) -> u16 {
    checksum_of(transport_cksum_data(b, ck_off), (12 + ck_off) / 2)
}

/// What checksum repair does to a mutated packet: the transport checksum of
/// a TCP or UDP datagram is recomputed over the new pseudo header first,
/// then the IPv4 header checksum is recomputed over the new header.
pub open spec fn spec_fix_checksums(b: Seq<u8>) -> Seq<u8> {
    let hl = ipv4_header_len(b);
    let b1 = if b[9] == PROTO_TCP && hl + 20 <= b.len() {
        spec_write2(b, hl + 16, transport_cksum(b, 16))
    } else if b[9] == PROTO_UDP && hl + 8 <= b.len() {
        spec_write2(b, hl + 6, transport_cksum(b, 6))
    } else {
        b
    };
    spec_write2(b1, 10, ip_cksum(b1))
}

/// The stored IPv4 header checksum matches a recomputation.
pub open spec fn ip_cksum_ok(b: Seq<u8>) -> bool {
    spec_read2(b, 10) == ip_cksum(b)
}

/// The stored transport checksum matches a recomputation (trivially true
/// for the no-port protocol class, which has no transport checksum).
pub open spec fn transport_cksum_ok(b: Seq<u8>) -> bool {
    let hl = ipv4_header_len(b);
    if b[9] == PROTO_TCP && hl + 20 <= b.len() {
        spec_read2(b, hl + 16) == transport_cksum(b, 16)
    } else if b[9] == PROTO_UDP && hl + 8 <= b.len() {
        spec_read2(b, hl + 6) == transport_cksum(b, 6)
    } else {
        true
    }
}

/// The packet parses and both checksums validate.
pub open spec fn spec_checksums_valid(b: Seq<u8>) -> bool {
    &&& ipv4_parseable(b)
    &&& ip_cksum_ok(b)
    &&& transport_cksum_ok(b)
}

/// Reads the big-endian 16-bit value at offset `i`.
pub fn read_u16_be(b: &Vec<u8>, i: usize) -> (r: u16)
    requires
        i + 2 <= b@.len(),
    ensures
        r == spec_read2(b@, i as int),
{
    let _len: usize = b.len();
    let hi = b[i];
    let lo = b[i + 1];
    (hi as u16) * 256 + (lo as u16)
}

/// Reads the big-endian 32-bit value at offset `i`.
pub fn read_u32_be(b: &Vec<u8>, i: usize) -> (r: u32)
    requires
        i + 4 <= b@.len(),
    ensures
        r == spec_read4(b@, i as int),
{
    let _len: usize = b.len();
    let hi = read_u16_be(b, i);
    let lo = read_u16_be(b, i + 2);
    (hi as u32) * 65536 + (lo as u32)
}

/// Writes the big-endian 16-bit value `v` at offset `i`.
pub fn write_u16_be(b: &mut Vec<u8>, i: usize, v: u16)
    requires
        i + 2 <= old(b)@.len(),
    ensures
        final(b)@ == spec_write2(old(b)@, i as int, v),
        final(b)@.len() == old(b)@.len(),
{
    let _len: usize = b.len();
    let hi: u8 = (v / 256) as u8;
    let lo: u8 = (v % 256) as u8;
    b[i] = hi;
    b[i + 1] = lo;
}

/// Writes the big-endian 32-bit value `v` at offset `i`.
pub fn write_u32_be(b: &mut Vec<u8>, i: usize, v: u32)
    requires
        i + 4 <= old(b)@.len(),
    ensures
        final(b)@ == spec_write4(old(b)@, i as int, v),
        final(b)@.len() == old(b)@.len(),
{
    let _len: usize = b.len();
    write_u16_be(b, i, (v / 65536) as u16);
    write_u16_be(b, i + 2, (v % 65536) as u16);
}

/// The header length stated by the packet's first byte.
pub fn header_len_of(b: &Vec<u8>) -> (r: usize)
    requires
        1 <= b@.len(),
    ensures
        r == ipv4_header_len(b@),
{
    ((b[0] % 16) as usize) * 4
}

/// Copies the bytes the IPv4 header checksum is computed over.
fn build_ip_cksum_data(b: &Vec<u8>, hl: usize) -> (r: Vec<u8>)
    requires
        12 <= hl <= b@.len(),
        hl == ipv4_header_len(b@),
    ensures
        r@ == ip_cksum_data(b@),
{
    let mut r: Vec<u8> = Vec::new();
    let mut j: usize = 0;
    while j < hl
        invariant
            hl <= b@.len(),
            j <= hl,
            r@.len() == j,
            forall|t: int|
                0 <= t < j ==> #[trigger] r@[t] == (if t == 10 || t == 11 {
                    0u8
                } else {
                    b@[t]
                }),
        decreases hl - j,
    {
        if j == 10 || j == 11 {
            r.push(0u8);
        } else {
            r.push(b[j]);
        }
        j += 1;
    }
    proof {
        assert(r@ =~= ip_cksum_data(b@));
    }
    r
}

/// Copies the bytes the transport checksum is computed over: pseudo header,
/// then the segment with its checksum field zeroed.
fn build_transport_cksum_data(b: &Vec<u8>, hl: usize, ck_off: usize) -> (r: Vec<u8>)
    requires
        20 <= hl,
        hl == ipv4_header_len(b@),
        hl + ck_off + 2 <= b@.len(),
        b@.len() <= 65535,
    ensures
        r@ == transport_cksum_data(b@, ck_off as int),
        r@.len() == 12 + b@.len() - hl,
{
    let mut r: Vec<u8> = Vec::new();
    let mut j: usize = 12;
    while j < 20
        invariant
            20 <= hl <= b@.len(),
            12 <= j <= 20,
            r@.len() == j - 12,
            forall|t: int| 0 <= t < j - 12 ==> #[trigger] r@[t] == b@[12 + t],
        decreases 20 - j,
    {
        r.push(b[j]);
        j += 1;
    }
    r.push(0u8);
    r.push(b[9]);
    let sl: usize = b.len() - hl;
    r.push((sl / 256) as u8);
    r.push((sl % 256) as u8);
    proof {
        assert(r@ =~= spec_pseudo_header(b@));
    }
    let co: usize = hl + ck_off;
    let mut j2: usize = hl;
    while j2 < b.len()
        invariant
            20 <= hl <= j2 <= b@.len(),
            b@.len() <= 65535,
            co == hl + ck_off,
            co + 2 <= b@.len(),
            r@.len() == 12 + j2 - hl,
            forall|t: int| 0 <= t < 12 ==> #[trigger] r@[t] == spec_pseudo_header(b@)[t],
            forall|t: int|
                12 <= t < r@.len() ==> #[trigger] r@[t] == (if hl + (t - 12) == co || hl + (t - 12)
                    == co + 1 {
                    0u8
                } else {
                    b@[hl + (t - 12)]
                }),
        decreases b@.len() - j2,
    {
        if j2 == co || j2 == co + 1 {
            r.push(0u8);
        } else {
            r.push(b[j2]);
        }
        j2 += 1;
    }
    proof {
        assert(r@ =~= transport_cksum_data(b@, ck_off as int));
    }
    r
}

/// Recomputes the checksums of a (possibly just mutated) packet: for TCP and
/// UDP the transport checksum over the pseudo header built from the current
/// addresses, and always the IPv4 header checksum.
pub fn fix_checksums(b: &mut Vec<u8>)
    requires
        ipv4_parseable(old(b)@),
    ensures
        final(b)@ == spec_fix_checksums(old(b)@),
        final(b)@.len() == old(b)@.len(),
{
    let hl = header_len_of(b);
    let proto = b[9];
    if proto == PROTO_TCP && hl + 20 <= b.len() {
        let data = build_transport_cksum_data(b, hl, 16);
        let c = internet_checksum(&data, 14);
        write_u16_be(b, hl + 16, c);
    } else if proto == PROTO_UDP && hl + 8 <= b.len() {
        let data = build_transport_cksum_data(b, hl, 6);
        let c = internet_checksum(&data, 9);
        write_u16_be(b, hl + 6, c);
    }
    proof {
        assert(b@[0] == old(b)@[0] && b@.len() == old(b)@.len());
        assert(ipv4_header_len(b@) == hl);
    }
    let hdr = build_ip_cksum_data(b, hl);
    let c2 = internet_checksum(&hdr, 5);
    write_u16_be(b, 10, c2);
}

/// Checks both checksums of a packet against a recomputation, exactly as
/// `spec_checksums_valid` states it.
pub fn checksums_valid(b: &Vec<u8>) -> (r: bool)
    ensures
        r == spec_checksums_valid(b@),
{
    if b.len() < 20 || b.len() > 65535 {
        return false;
    }
    let hl = header_len_of(b);
    if hl < 20 || hl > b.len() {
        return false;
    }
    let hdr = build_ip_cksum_data(b, hl);
    let c = internet_checksum(&hdr, 5);
    let stored = read_u16_be(b, 10);
    if stored != c {
        return false;
    }
    let proto = b[9];
    if proto == PROTO_TCP && hl + 20 <= b.len() {
        let data = build_transport_cksum_data(b, hl, 16);
        let tc = internet_checksum(&data, 14);
        let st = read_u16_be(b, hl + 16);
        st == tc
    } else if proto == PROTO_UDP && hl + 8 <= b.len() {
        let data = build_transport_cksum_data(b, hl, 6);
        let tc = internet_checksum(&data, 9);
        let st = read_u16_be(b, hl + 6);
        st == tc
    } else {
        true
    }
}

/// Checksum repair is sound: a repaired parseable packet validates. The
/// repair changes only the two checksum fields, which the checksummed bytes
/// exclude, so the recomputation at validation time sums the same bytes.
pub proof fn lemma_fix_gives_valid(b: Seq<u8>)
    requires
        ipv4_parseable(b),
    ensures
        spec_fix_checksums(b).len() == b.len(),
        ipv4_header_len(spec_fix_checksums(b)) == ipv4_header_len(b),
        spec_fix_checksums(b)[9] == b[9],
        spec_checksums_valid(spec_fix_checksums(b)),
{
    let hl = ipv4_header_len(b);
    let tcp = b[9] == PROTO_TCP && hl + 20 <= b.len();
    let udp = b[9] == PROTO_UDP && hl + 8 <= b.len();
    let b1 = if tcp {
        spec_write2(b, hl + 16, transport_cksum(b, 16))
    } else if udp {
        spec_write2(b, hl + 6, transport_cksum(b, 6))
    } else {
        b
    };
    let r = spec_write2(b1, 10, ip_cksum(b1));
    assert(r == spec_fix_checksums(b));
    assert(b1.len() == b.len() && r.len() == b.len());
    assert(r[0] == b[0] && r[9] == b[9]);
    assert(ipv4_header_len(r) == hl);
    assert(ipv4_parseable(r));
    assert(ip_cksum_data(r) =~= ip_cksum_data(b1));
    assert(spec_read2(r, 10) == ip_cksum(b1));
    assert(ip_cksum_ok(r));
    if tcp {
        let c = transport_cksum(b, 16);
        assert(spec_read2(r, hl + 16) == c);
        assert(spec_pseudo_header(r) =~= spec_pseudo_header(b));
        assert(spec_write2(r, hl + 16, 0u16).subrange(hl, r.len() as int) =~= spec_write2(
            b,
            hl + 16,
            0u16,
        ).subrange(hl, b.len() as int));
        assert(transport_cksum_data(r, 16) == transport_cksum_data(b, 16));
        assert(transport_cksum_ok(r));
    } else if udp {
        let c = transport_cksum(b, 6);
        assert(spec_read2(r, hl + 6) == c);
        assert(spec_pseudo_header(r) =~= spec_pseudo_header(b));
        assert(spec_write2(r, hl + 6, 0u16).subrange(hl, r.len() as int) =~= spec_write2(
            b,
            hl + 6,
            0u16,
        ).subrange(hl, b.len() as int));
        assert(transport_cksum_data(r, 6) == transport_cksum_data(b, 6));
        assert(transport_cksum_ok(r));
    } else {
        assert(transport_cksum_ok(r));
    }
}

} // verus!
