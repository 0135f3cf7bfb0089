//! A carrier-grade NAT engine: a bijective, capacity-bounded translation
//! table between externally visible flow slots and internal flows, plus
//! protocol-aware rewriting of raw IPv4 packets with checksum repair.

use vstd::prelude::*;

mod bijective_lru;
mod flow;
pub mod packet;

pub use bijective_lru::BijectiveLru;
pub use flow::Endpoint;
pub use flow::Flow;
pub use flow::TransKey;

use packet::PROTO_TCP;
use packet::PROTO_UDP;
use packet::fix_checksums;
use packet::header_len_of;
use packet::ipv4_header_len;
use packet::ipv4_parseable;
use packet::lemma_fix_gives_valid;
use packet::mangle_parseable;
use packet::read_u16_be;
use packet::read_u32_be;
use packet::spec_checksums_valid;
use packet::spec_fix_checksums;
use packet::spec_read2;
use packet::spec_read4;
use packet::spec_write2;
use packet::spec_write4;
use packet::write_u16_be;
use packet::write_u32_be;
use vstd::slice::slice_to_vec;

use bijective_lru::entries_wf;
use bijective_lru::has_flow;
use bijective_lru::has_key;
use bijective_lru::key_index;
use bijective_lru::key_of;
use bijective_lru::flow_index;
use bijective_lru::lemma_index_is;
use bijective_lru::lemma_spec_push;
use bijective_lru::spec_push;
use bijective_lru::spec_touch_key;
use bijective_lru::value_of;

verus! {

/// How many random candidates the port allocator draws before it reports
/// exhaustion for the requested remote.
pub const MAX_PORT_TRIES: usize = 64;

/// Every entry a NAT table ever inserts pairs a key and a flow that talk to
/// the same remote, and assigns the reserved port 0 exactly to the flows
/// whose internal source port is 0 (the no-port passthrough class).
pub open spec fn nat_entry_ok(e: (TransKey, Flow)) -> bool {
    &&& e.0.remote == e.1.remote
    &&& (e.0.port == 0 <==> e.1.internal.port == 0)
}

/// `nat_entry_ok`, over the whole table.
pub open spec fn nat_inv(s: Seq<(TransKey, Flow)>) -> bool {
    forall|i: int| 0 <= i < s.len() ==> nat_entry_ok(#[trigger] s[i])
}

/// What a downstream rewrite answers from a table state: the internal
/// endpoint paired with the key `(port, remote)`, if that key is present.
pub open spec fn spec_rewrite_downstream(
    s: Seq<(TransKey, Flow)>,
    port: u16,
    src: Endpoint,
) -> Option<Endpoint> {
    let k = TransKey { port, remote: src };
    if has_key(s, k) {
        Some(value_of(s, k).internal)
    } else {
        None
    }
}

/// An insert of a conforming pair keeps `nat_inv`: the insert introduces no
/// other pair, and eviction only removes pairs.
pub proof fn lemma_push_keeps_nat_inv(s: Seq<(TransKey, Flow)>, cap: nat, k: TransKey, f: Flow)
    requires
        1 <= cap,
        nat_inv(s),
        nat_entry_ok((k, f)),
    ensures
        nat_inv(spec_push(s, cap, k, f)),
{
    let s1a = bijective_lru::drop_key(s, k);
    if has_key(s, k) {
        s.remove_ensures(key_index(s, k));
    }
    assert(nat_inv(s1a));
    let s1 = bijective_lru::drop_flow(s1a, f);
    if has_flow(s1a, f) {
        s1a.remove_ensures(flow_index(s1a, f));
    }
    assert(nat_inv(s1));
    let s2 = if s1.len() >= cap {
        s1.remove(0)
    } else {
        s1
    };
    if s1.len() >= cap {
        s1.remove_ensures(0);
    }
    assert(nat_inv(s2));
    let r = spec_push(s, cap, k, f);
    assert forall|i: int| 0 <= i < r.len() implies nat_entry_ok(#[trigger] r[i]) by {
        if i < s2.len() {
            assert(r[i] == s2[i]);
        } else {
            assert(r[i] == (k, f));
        }
    }
}

/// A recency refresh keeps `nat_inv`: a lookup only reorders the entries.
pub proof fn lemma_touch_keeps_nat_inv(s: Seq<(TransKey, Flow)>, k: TransKey)
    requires
        nat_inv(s),
    ensures
        nat_inv(spec_touch_key(s, k)),
{
    if has_key(s, k) {
        let i = key_index(s, k);
        s.remove_ensures(i);
        let t = s.remove(i);
        let r = spec_touch_key(s, k);
        assert forall|j: int| 0 <= j < r.len() implies nat_entry_ok(#[trigger] r[j]) by {
            if j < t.len() {
                assert(r[j] == t[j]);
                if j < i {
                    assert(t[j] == s[j]);
                } else {
                    assert(t[j] == s[j + 1]);
                }
            } else {
                assert(r[j] == s[i]);
            }
        }
    }
}

/// Law: round trip. When an upstream rewrite establishes external port `p`
/// for the internal source `src` talking to `remote`, the resulting table
/// answers the downstream lookup of `(p, remote)` with exactly `src`.
pub proof fn lemma_round_trip(
    s: Seq<(TransKey, Flow)>,
    cap: nat,
    src: Endpoint,
    remote: Endpoint,
    p: u16,
)
    requires
        entries_wf(s),
        s.len() <= cap,
        1 <= cap,
    ensures
        ({
            let s2 = spec_push(s, cap, TransKey { port: p, remote }, Flow { internal: src, remote });
            spec_rewrite_downstream(s2, p, remote) == Some(src)
        }),
{
    lemma_spec_push(s, cap, TransKey { port: p, remote }, Flow { internal: src, remote });
}

/// Law: port stability. After an upstream rewrite establishes external port
/// `p` for the flow `(src, remote)`, that flow is present and still paired
/// with `(p, remote)`; a second upstream rewrite of the same flow with no
/// intervening evictions therefore returns the same port.
pub proof fn lemma_port_stability(
    s: Seq<(TransKey, Flow)>,
    cap: nat,
    src: Endpoint,
    remote: Endpoint,
    p: u16,
)
    requires
        entries_wf(s),
        s.len() <= cap,
        1 <= cap,
    ensures
        ({
            let fl = Flow { internal: src, remote };
            let s2 = spec_push(s, cap, TransKey { port: p, remote }, fl);
            has_flow(s2, fl) && key_of(s2, fl) == TransKey { port: p, remote }
        }),
{
    lemma_spec_push(s, cap, TransKey { port: p, remote }, Flow { internal: src, remote });
}

/// Relies on fastrand::u16: a draw from the given range, here starting at
/// 2000 and otherwise unbounded above, so the result is at least 2000.
/// Nothing more is promised of a random draw.
#[verifier::external_body]
fn random_port() -> (r: u16)
    ensures
        2000 <= r,
{
    fastrand::u16(2000..)
}

/// The NAT translation table: a bijective bounded cache of flow slots plus
/// the NAT's fixed external IP.
///
/// Every operation takes `&mut self`, so the whole
/// lookup-or-allocate-and-insert transaction of an upstream rewrite runs
/// under one exclusive borrow: check-then-insert can never interleave.
/// Callers that share one table across threads wrap it in a
/// mutual-exclusion lock and hold the lock across a whole call.
pub struct GephNat {
    map: BijectiveLru,
    src_ip: u32,
}

impl View for GephNat {
    type V = Seq<(TransKey, Flow)>;

    closed spec fn view(&self) -> Seq<(TransKey, Flow)> {
        self.map@
    }
}

impl GephNat {
    /// The external IP handed in at construction, immutable thereafter.
    pub closed spec fn external_ip(&self) -> u32 {
        self.src_ip
    }

    /// The capacity of the translation table.
    pub closed spec fn capacity(&self) -> nat {
        self.map.capacity()
    }

    /// The inner cache is well formed with the same capacity the table
    /// reports.
    pub closed spec fn map_ok(&self) -> bool {
        self.map.wf()
    }

    /// Well-formedness of the whole NAT: the cache invariants plus the
    /// NAT-specific shape of every entry.
    pub open spec fn wf(&self) -> bool {
        &&& self.map_ok()
        &&& entries_wf(self@)
        &&& self@.len() <= self.capacity()
        &&& 1 <= self.capacity()
        &&& nat_inv(self@)
    }

    /// Makes an empty NAT with the given table capacity and external IP.
    pub fn new(cap: usize, src_ip: u32) -> (r: GephNat)
        requires
            1 <= cap,
        ensures
            r.wf(),
            r@ == Seq::<(TransKey, Flow)>::empty(),
            r.external_ip() == src_ip,
            r.capacity() == cap,
    {
        GephNat { map: BijectiveLru::new(cap), src_ip }
    }

    /// Given the source and destination of an upstream packet, returns the
    /// corresponding source on the up-facing side of the NAT.
    ///
    /// A flow already in the table keeps its assigned port and is refreshed.
    /// A source port of 0 passes through untranslated as port 0. Otherwise a
    /// fresh random port in [2000, 65535] free for this remote is assigned;
    /// if no free candidate is drawn within `MAX_PORT_TRIES`, the allocator
    /// reports exhaustion with `None` and the table is left unchanged.
    pub fn rewrite_upstream_src(&mut self, original_src: Endpoint, dest: Endpoint) -> (r: Option<
        Endpoint,
    >)
        requires
            old(self).wf(),
        ensures
            final(self).wf(),
            final(self).external_ip() == old(self).external_ip(),
            final(self).capacity() == old(self).capacity(),
            ({
                let fl = Flow { internal: original_src, remote: dest };
                match r {
                    Some(ep) => {
                        &&& ep.ip == old(self).external_ip()
                        &&& final(self)@ == spec_push(
                            old(self)@,
                            old(self).capacity(),
                            TransKey { port: ep.port, remote: dest },
                            fl,
                        )
                        &&& (has_flow(old(self)@, fl) ==> ep.port == key_of(old(self)@, fl).port)
                        &&& (!has_flow(old(self)@, fl) && original_src.port != 0 ==> 2000
                            <= ep.port && !has_key(
                            old(self)@,
                            TransKey { port: ep.port, remote: dest },
                        ))
                        &&& (original_src.port == 0 ==> ep.port == 0)
                    },
                    None => {
                        &&& final(self)@ == old(self)@
                        &&& !has_flow(old(self)@, fl)
                        &&& original_src.port != 0
                    },
                }
            }),
            original_src.port == 0 || has_flow(
                old(self)@,
                Flow { internal: original_src, remote: dest },
            ) ==> r is Some,
    {
        let fl = Flow { internal: original_src, remote: dest };
        if let Some(k) = self.map.peek_key(&fl) {
            proof {
                let i = flow_index(old(self)@, fl);
                lemma_index_is(old(self)@, i);
                assert(nat_entry_ok(old(self)@[i]));
                assert(k == TransKey { port: k.port, remote: dest });
                lemma_push_keeps_nat_inv(old(self)@, old(self).capacity(), k, fl);
            }
            self.map.push(k, fl);
            return Some(Endpoint { ip: self.src_ip, port: k.port });
        }
        if original_src.port == 0 {
            let k = TransKey { port: 0, remote: dest };
            proof {
                lemma_push_keeps_nat_inv(old(self)@, old(self).capacity(), k, fl);
            }
            self.map.push(k, fl);
            return Some(Endpoint { ip: self.src_ip, port: 0 });
        }
        let mut chosen: Option<u16> = None;
        let mut tries: usize = 0;
        while chosen.is_none() && tries < MAX_PORT_TRIES
            invariant
                *self == *old(self),
                old(self).wf(),
                tries <= MAX_PORT_TRIES,
                match chosen {
                    Some(p) => 2000 <= p && !has_key(
                        old(self)@,
                        TransKey { port: p, remote: dest },
                    ),
                    None => true,
                },
            decreases MAX_PORT_TRIES - tries,
        {
            let cand = random_port();
            if !self.map.contains_key(&TransKey { port: cand, remote: dest }) {
                chosen = Some(cand);
            }
            tries += 1;
        }
        match chosen {
            None => None,
            Some(p) => {
                let k = TransKey { port: p, remote: dest };
                proof {
                    lemma_push_keeps_nat_inv(old(self)@, old(self).capacity(), k, fl);
                }
                self.map.push(k, fl);
                Some(Endpoint { ip: self.src_ip, port: p })
            },
        }
    }

    /// Given the destination and source of a downstream packet, returns the
    /// corresponding destination on the down-facing side of the NAT: the
    /// internal endpoint paired with `(current_dest.port, src)`, refreshing
    /// the pair's recency, or `None` when no such mapping exists (the packet
    /// is unsolicited and must be dropped by the caller).
    pub fn rewrite_downstream_dest(&mut self, current_dest: Endpoint, src: Endpoint) -> (r: Option<
        Endpoint,
    >)
        requires
            old(self).wf(),
        ensures
            final(self).wf(),
            final(self).external_ip() == old(self).external_ip(),
            final(self).capacity() == old(self).capacity(),
            final(self)@ == spec_touch_key(
                old(self)@,
                TransKey { port: current_dest.port, remote: src },
            ),
            r == spec_rewrite_downstream(old(self)@, current_dest.port, src),
    {
        let key = TransKey { port: current_dest.port, remote: src };
        proof {
            lemma_touch_keeps_nat_inv(old(self)@, key);
            bijective_lru::lemma_spec_touch_key(old(self)@, key);
        }
        match self.map.get_value(&key) {
            Some(found) => Some(found.internal),
            None => None,
        }
    }

    /// Given an upstream IPv4 packet, returns the mangled version: source
    /// address (and, for TCP/UDP, source port) rewritten to the NAT's
    /// external flow slot, checksums repaired. Returns `None` when the
    /// packet does not parse or when port allocation is exhausted for the
    /// packet's remote (in which case the table is unchanged).
    pub fn mangle_upstream_pkt(&mut self, msg: &[u8]) -> (r: Option<Vec<u8>>)
        requires
            old(self).wf(),
        ensures
            final(self).wf(),
            final(self).external_ip() == old(self).external_ip(),
            final(self).capacity() == old(self).capacity(),
            !mangle_parseable(msg@) ==> r is None && final(self)@ == old(self)@,
            match r {
                Some(out) => ({
                    let fl = spec_upstream_flow(msg@);
                    let k = key_of(final(self)@, fl);
                    &&& mangle_parseable(msg@)
                    &&& has_flow(final(self)@, fl)
                    &&& k.remote == fl.remote
                    &&& final(self)@ == spec_push(old(self)@, old(self).capacity(), k, fl)
                    &&& (has_flow(old(self)@, fl) ==> k == key_of(old(self)@, fl))
                    &&& (fl.internal.port == 0 ==> k.port == 0)
                    &&& out@ == spec_mangled_upstream(msg@, old(self).external_ip(), k.port)
                    &&& out@.len() == msg@.len()
                    &&& spec_checksums_valid(out@)
                }),
                None => {
                    &&& final(self)@ == old(self)@
                    &&& (mangle_parseable(msg@) ==> !has_flow(
                        old(self)@,
                        spec_upstream_flow(msg@),
                    ) && spec_upstream_flow(msg@).internal.port != 0)
                },
            },
    {
        let n = msg.len();
        if n < 20 || n > 65535 {
            return None;
        }
        let mut b = slice_to_vec(msg);
        let hl = header_len_of(&b);
        if hl < 20 || hl > n {
            return None;
        }
        let proto = b[9];
        let src_ip = read_u32_be(&b, 12);
        let dst_ip = read_u32_be(&b, 16);
        if proto == PROTO_TCP || proto == PROTO_UDP {
            if proto == PROTO_TCP && hl + 20 > n {
                return None;
            }
            if proto == PROTO_UDP && hl + 8 > n {
                return None;
            }
            let sp = read_u16_be(&b, hl);
            let dp = read_u16_be(&b, hl + 2);
            let src = Endpoint { ip: src_ip, port: sp };
            let dst = Endpoint { ip: dst_ip, port: dp };
            proof {
                assert(Flow { internal: src, remote: dst } == spec_upstream_flow(msg@));
            }
            match self.rewrite_upstream_src(src, dst) {
                None => None,
                Some(ep) => {
                    proof {
                        lemma_spec_push(
                            old(self)@,
                            old(self).capacity(),
                            TransKey { port: ep.port, remote: dst },
                            Flow { internal: src, remote: dst },
                        );
                    }
                    write_u16_be(&mut b, hl, ep.port);
                    write_u32_be(&mut b, 12, ep.ip);
                    proof {
                        assert(b@[0] == msg@[0] && b@[9] == msg@[9] && b@.len() == msg@.len());
                        assert(ipv4_parseable(b@));
                        lemma_fix_gives_valid(b@);
                    }
                    fix_checksums(&mut b);
                    Some(b)
                },
            }
        } else {
            let src = Endpoint { ip: src_ip, port: 0 };
            let dst = Endpoint { ip: 0, port: 0 };
            proof {
                assert(Flow { internal: src, remote: dst } == spec_upstream_flow(msg@));
            }
            match self.rewrite_upstream_src(src, dst) {
                None => {
                    proof {
                        assert(false);
                    }
                    None
                },
                Some(ep) => {
                    proof {
                        lemma_spec_push(
                            old(self)@,
                            old(self).capacity(),
                            TransKey { port: ep.port, remote: dst },
                            Flow { internal: src, remote: dst },
                        );
                    }
                    write_u32_be(&mut b, 12, ep.ip);
                    proof {
                        assert(b@[0] == msg@[0] && b@[9] == msg@[9] && b@.len() == msg@.len());
                        assert(ipv4_parseable(b@));
                        lemma_fix_gives_valid(b@);
                    }
                    fix_checksums(&mut b);
                    Some(b)
                },
            }
        }
    }

    /// Given a downstream IPv4 packet, returns the mangled version:
    /// destination address (and, for TCP/UDP, destination port) rewritten
    /// back to the internal flow, checksums repaired. Returns `None` when
    /// the packet does not parse or when no mapping exists for its
    /// destination slot (unsolicited traffic the caller must drop).
    pub fn mangle_downstream_pkt(&mut self, msg: &[u8]) -> (r: Option<Vec<u8>>)
        requires
            old(self).wf(),
        ensures
            final(self).wf(),
            final(self).external_ip() == old(self).external_ip(),
            final(self).capacity() == old(self).capacity(),
            !mangle_parseable(msg@) ==> r is None && final(self)@ == old(self)@,
            mangle_parseable(msg@) ==> final(self)@ == spec_touch_key(
                old(self)@,
                TransKey {
                    port: spec_downstream_key_port(msg@),
                    remote: spec_downstream_remote(msg@),
                },
            ),
            match r {
                Some(out) => ({
                    let found = spec_rewrite_downstream(
                        old(self)@,
                        spec_downstream_key_port(msg@),
                        spec_downstream_remote(msg@),
                    );
                    &&& mangle_parseable(msg@)
                    &&& found matches Some(nd) && out@ == spec_mangled_downstream(
                        msg@,
                        nd.ip,
                        nd.port,
                    ) && out@.len() == msg@.len() && spec_checksums_valid(out@)
                }),
                None => !mangle_parseable(msg@) || spec_rewrite_downstream(
                    old(self)@,
                    spec_downstream_key_port(msg@),
                    spec_downstream_remote(msg@),
                ) is None,
            },
    {
        let n = msg.len();
        if n < 20 || n > 65535 {
            return None;
        }
        let mut b = slice_to_vec(msg);
        let hl = header_len_of(&b);
        if hl < 20 || hl > n {
            return None;
        }
        let proto = b[9];
        let src_ip = read_u32_be(&b, 12);
        let dst_ip = read_u32_be(&b, 16);
        if proto == PROTO_TCP || proto == PROTO_UDP {
            if proto == PROTO_TCP && hl + 20 > n {
                return None;
            }
            if proto == PROTO_UDP && hl + 8 > n {
                return None;
            }
            let sp = read_u16_be(&b, hl);
            let dp = read_u16_be(&b, hl + 2);
            let current_dest = Endpoint { ip: dst_ip, port: dp };
            let remote_src = Endpoint { ip: src_ip, port: sp };
            proof {
                assert(dp == spec_downstream_key_port(msg@));
                assert(remote_src == spec_downstream_remote(msg@));
            }
            match self.rewrite_downstream_dest(current_dest, remote_src) {
                None => None,
                Some(nd) => {
                    write_u16_be(&mut b, hl + 2, nd.port);
                    write_u32_be(&mut b, 16, nd.ip);
                    proof {
                        assert(b@[0] == msg@[0] && b@[9] == msg@[9] && b@.len() == msg@.len());
                        assert(ipv4_parseable(b@));
                        lemma_fix_gives_valid(b@);
                    }
                    fix_checksums(&mut b);
                    Some(b)
                },
            }
        } else {
            let current_dest = Endpoint { ip: dst_ip, port: 0 };
            let remote_src = Endpoint { ip: 0, port: 0 };
            proof {
                assert(0u16 == spec_downstream_key_port(msg@));
                assert(remote_src == spec_downstream_remote(msg@));
            }
            match self.rewrite_downstream_dest(current_dest, remote_src) {
                None => None,
                Some(nd) => {
                    write_u32_be(&mut b, 16, nd.ip);
                    proof {
                        assert(b@[0] == msg@[0] && b@[9] == msg@[9] && b@.len() == msg@.len());
                        assert(ipv4_parseable(b@));
                        lemma_fix_gives_valid(b@);
                    }
                    fix_checksums(&mut b);
                    Some(b)
                },
            }
        }
    }
}

/// The internal flow an upstream packet names: for TCP/UDP the packet's
/// source socket talking to its destination socket; for the no-port class
/// the source address with port 0, talking to the placeholder remote.
pub open spec fn spec_upstream_flow(b: Seq<u8>) -> Flow {
    let hl = ipv4_header_len(b);
    if b[9] == PROTO_TCP || b[9] == PROTO_UDP {
        Flow {
            internal: Endpoint { ip: spec_read4(b, 12) as u32, port: spec_read2(b, hl) as u16 },
            remote: Endpoint { ip: spec_read4(b, 16) as u32, port: spec_read2(b, hl + 2) as u16 },
        }
    } else {
        Flow {
            internal: Endpoint { ip: spec_read4(b, 12) as u32, port: 0 },
            remote: Endpoint { ip: 0, port: 0 },
        }
    }
}

/// The external port a downstream packet is addressed to: its destination
/// port for TCP/UDP, the reserved port 0 for the no-port class.
pub open spec fn spec_downstream_key_port(b: Seq<u8>) -> u16 {
    if b[9] == PROTO_TCP || b[9] == PROTO_UDP {
        spec_read2(b, ipv4_header_len(b) + 2) as u16
    } else {
        0u16
    }
}

/// The remote a downstream packet comes from: its source socket for
/// TCP/UDP, the placeholder remote for the no-port class.
pub open spec fn spec_downstream_remote(b: Seq<u8>) -> Endpoint {
    if b[9] == PROTO_TCP || b[9] == PROTO_UDP {
        Endpoint { ip: spec_read4(b, 12) as u32, port: spec_read2(b, ipv4_header_len(b)) as u16 }
    } else {
        Endpoint { ip: 0, port: 0 }
    }
}

/// An upstream mangle writes the new source (address, and port for TCP/UDP)
/// and then repairs the checksums.
pub open spec fn spec_mangled_upstream(b: Seq<u8>, new_ip: u32, new_port: u16) -> Seq<u8> {
    let hl = ipv4_header_len(b);
    let with_addr = if b[9] == PROTO_TCP || b[9] == PROTO_UDP {
        spec_write4(spec_write2(b, hl, new_port), 12, new_ip)
    } else {
        spec_write4(b, 12, new_ip)
    };
    spec_fix_checksums(with_addr)
}

/// A downstream mangle writes the new destination (address, and port for
/// TCP/UDP) and then repairs the checksums.
pub open spec fn spec_mangled_downstream(b: Seq<u8>, new_ip: u32, new_port: u16) -> Seq<u8> {
    let hl = ipv4_header_len(b);
    let with_addr = if b[9] == PROTO_TCP || b[9] == PROTO_UDP {
        spec_write4(spec_write2(b, hl + 2, new_port), 16, new_ip)
    } else {
        spec_write4(b, 16, new_ip)
    };
    spec_fix_checksums(with_addr)
}

} // verus!
