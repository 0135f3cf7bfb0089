use geph_nat::Endpoint;
use geph_nat::GephNat;

// 1.2.3.4
fn external_ip() -> u32 {
    0x01020304
}

// 10.0.0.1
fn internal_ip() -> u32 {
    0x0A000001
}

// 93.0.0.1
fn remote_ip() -> u32 {
    0x5D000001
}

// Port stability: the same internal flow gets the same external port on a
// second upstream rewrite with no intervening evictions.
#[test]
fn port_stability() {
    let mut nat = GephNat::new(100, external_ip());
    let src = Endpoint { ip: internal_ip(), port: 1100 };
    let dst = Endpoint { ip: remote_ip(), port: 80 };
    let first = nat.rewrite_upstream_src(src, dst).unwrap();
    let second = nat.rewrite_upstream_src(src, dst).unwrap();
    assert_eq!(first.ip, external_ip());
    assert_eq!(first, second);
    assert!(first.port >= 2000);
}

// Round trip: rewriting upstream and then looking the assigned slot up
// downstream returns the original internal socket.
#[test]
fn round_trip() {
    let mut nat = GephNat::new(100, external_ip());
    let src = Endpoint { ip: internal_ip(), port: 1100 };
    let dst = Endpoint { ip: remote_ip(), port: 80 };
    let ext = nat.rewrite_upstream_src(src, dst).unwrap();
    let back = nat.rewrite_downstream_dest(Endpoint { ip: external_ip(), port: ext.port }, dst);
    assert_eq!(back, Some(src));
}

// Port 0 passthrough: a source port of 0 is never translated, whatever the
// destination.
#[test]
fn port_zero_passthrough() {
    let mut nat = GephNat::new(100, external_ip());
    let src = Endpoint { ip: internal_ip(), port: 0 };
    for dport in [0u16, 80, 59999] {
        let dst = Endpoint { ip: remote_ip(), port: dport };
        let ext = nat.rewrite_upstream_src(src, dst).unwrap();
        assert_eq!(ext, Endpoint { ip: external_ip(), port: 0 });
    }
}

// Unmapped downstream drop: without a prior upstream assignment of the
// port for that remote, a downstream rewrite returns nothing.
#[test]
fn unmapped_downstream_drop() {
    let mut nat = GephNat::new(100, external_ip());
    let dst = Endpoint { ip: external_ip(), port: 59999 };
    let remote = Endpoint { ip: remote_ip(), port: 80 };
    assert_eq!(nat.rewrite_downstream_dest(dst, remote), None);
}

// Distinct remotes may share the same external port number: the remote is
// part of the translation key, so neither flow shadows the other.
#[test]
fn ports_reusable_across_remotes() {
    let mut nat = GephNat::new(100, external_ip());
    let src_a = Endpoint { ip: internal_ip(), port: 1100 };
    let src_b = Endpoint { ip: internal_ip(), port: 1101 };
    let dst_a = Endpoint { ip: remote_ip(), port: 80 };
    let dst_b = Endpoint { ip: remote_ip() + 1, port: 80 };
    let ext_a = nat.rewrite_upstream_src(src_a, dst_a).unwrap();
    let ext_b = nat.rewrite_upstream_src(src_b, dst_b).unwrap();
    let back_a = nat.rewrite_downstream_dest(Endpoint { ip: external_ip(), port: ext_a.port }, dst_a);
    let back_b = nat.rewrite_downstream_dest(Endpoint { ip: external_ip(), port: ext_b.port }, dst_b);
    assert_eq!(back_a, Some(src_a));
    assert_eq!(back_b, Some(src_b));
}

// Eviction under load: with a tiny table, old flows are forgotten and their
// slots answer downstream with nothing.
#[test]
fn eviction_forgets_old_flows() {
    let mut nat = GephNat::new(2, external_ip());
    let dst = Endpoint { ip: remote_ip(), port: 80 };
    let src1 = Endpoint { ip: internal_ip(), port: 1001 };
    let src2 = Endpoint { ip: internal_ip(), port: 1002 };
    let src3 = Endpoint { ip: internal_ip(), port: 1003 };
    let e1 = nat.rewrite_upstream_src(src1, dst).unwrap();
    let _e2 = nat.rewrite_upstream_src(src2, dst).unwrap();
    let _e3 = nat.rewrite_upstream_src(src3, dst).unwrap();
    assert_eq!(
        nat.rewrite_downstream_dest(Endpoint { ip: external_ip(), port: e1.port }, dst),
        None
    );
}
