//! Extended attributes: names, values, buffers, and the refetch.
use uring_fs::errno::{Errno, Error};
use uring_fs::pending::FsPending;
use uring_fs::table::FsOutcome;
use uring_fs::xattrs::{
    discover_names, list_xattr_names, names_to_scan, namespace_of, narrow, pending_bytes,
    pending_discovered, right_size, scan_result, sort_and_dedup, worth_shrinking, DiscRead, Refetch,
    RefetchNext, XattrNamespaces, XattrValue, NS_SECURITY, NS_SYSTEM, NS_TRUSTED, NS_USER, XATTR_SIZE_MAX,
};

#[test]
fn narrowing_reuses_the_buffer_instead_of_copying_it() {
    let buf = vec![7u8; 4096];
    let before = buf.as_ptr();
    let got = narrow(buf, 4000).expect("4000 fits in 4096");
    assert_eq!(got.as_ptr(), before, "the value was copied elsewhere");
    assert_eq!(got.len(), 4000);
    assert_eq!(got.capacity(), 4096, "capacity shrank, so it reallocated");
    assert!(got.iter().all(|&b| b == 7));
}

#[test]
fn right_sizing_returns_a_probe_buffers_surplus() {
    let got = right_size(vec![7u8; 65536], 13).expect("13 fits");
    assert_eq!(got.len(), 13);
    assert_eq!(got.capacity(), 13, "the probe buffer was retained");
    assert!(got.iter().all(|&b| b == 7));

    let buf = vec![9u8; 4096];
    let before = buf.as_ptr();
    let got = right_size(buf, 3000).expect("3000 fits");
    assert_eq!(got.as_ptr(), before, "a near-full buffer was copied");
    assert_eq!(got.capacity(), 4096);
    assert_eq!(got.len(), 3000);
}

#[test]
fn a_count_past_the_end_is_refused_rather_than_ignored() {
    assert!(narrow(vec![0u8; 16], 17).is_none());
    assert!(narrow(vec![0u8; 16], usize::MAX).is_none());
    assert_eq!(narrow(vec![0u8; 16], 16).map(|v| v.len()), Some(16));
    assert_eq!(narrow(Vec::new(), 0).map(|v| v.len()), Some(0));
    assert!(worth_shrinking(4096, 2048) && worth_shrinking(65536, 13));
    assert!(!worth_shrinking(4096, 2049) && !worth_shrinking(3, 2));
    assert!(right_size(vec![0u8; 16], 17).is_none());
    assert!(right_size(vec![0u8; 16], usize::MAX).is_none());
    assert_eq!(right_size(Vec::new(), 0).map(|v| v.len()), Some(0));
}

#[test]
fn a_name_is_in_the_namespace_of_its_prefix() {
    let bits = |n: &[u8]| namespace_of(n).map(|ns| ns.bits);
    assert_eq!(bits(b"user.a"), Some(NS_USER));
    assert_eq!(bits(b"trusted.a"), Some(NS_TRUSTED));
    assert_eq!(bits(b"security.a"), Some(NS_SECURITY));
    assert_eq!(bits(b"system.a"), Some(NS_SYSTEM));
    assert_eq!(bits(b"user"), None);
    assert_eq!(bits(b"os2.a"), None);
}

fn names(l: &[&str]) -> Vec<Vec<u8>> {
    l.iter().map(|n| n.as_bytes().to_vec()).collect()
}

#[test]
fn names_are_sorted_and_each_once() {
    assert_eq!(sort_and_dedup(names(&["b", "a", "b", "", "a"])), names(&["", "a", "b"]));
    assert_eq!(list_xattr_names(Ok(names(&["x", "x"]))).unwrap(), names(&["x"]));
    assert!(matches!(
        list_xattr_names(Err(Error::Errno(Errno::EIO))),
        Err(Error::Errno(Errno::EIO))
    ));
}

#[test]
fn discovery_leaves_out_what_is_fetched_otherwise() {
    let ns = XattrNamespaces { bits: NS_USER | NS_SYSTEM };
    let explicit = names(&["user.b"]);
    let (got, listed) = discover_names(
        Some(names(&["user.c", "user.a", "user.b", "trusted.t", "system.acl", "user.a"])),
        ns,
        &explicit,
        Some(&b"system.acl".to_vec()),
    );
    assert!(listed);
    assert_eq!(got, names(&["user.a", "user.c"]));
    let (got, listed) = discover_names(None, ns, &explicit, None);
    assert!(!listed && got.is_empty());
    let scan = names_to_scan(Ok(names(&["user.z", "trusted.t"])), XattrNamespaces { bits: NS_USER });
    assert_eq!(scan.unwrap(), names(&["user.z"]));
}

fn outcome(res: Result<i32, Errno>, bufs: Vec<Vec<u8>>) -> FsPending<()> {
    FsPending::resolved(FsOutcome { res, bufs, file: None, stat: None })
}

#[test]
fn a_read_is_its_filled_bytes() {
    assert_eq!(pending_bytes(outcome(Ok(2), vec![vec![1, 2, 3]])), Some(vec![1, 2]));
    assert_eq!(pending_bytes(outcome(Ok(4), vec![vec![1, 2, 3]])), None);
    assert_eq!(pending_bytes(outcome(Ok(0), vec![])), None);
    assert_eq!(pending_bytes(outcome(Err(Errno::EIO), vec![vec![0; 8]])), None);
    assert_eq!(pending_bytes(FsPending::<()>::gone()), None);
    assert!(matches!(
        pending_discovered(outcome(Err(Errno::ERANGE), vec![vec![0; 8]])),
        DiscRead::Grow
    ));
    assert!(matches!(pending_discovered(outcome(Err(Errno::EACCES), vec![])), DiscRead::Drop));
    assert!(matches!(
        pending_discovered(outcome(Ok(1), vec![vec![9, 9]])),
        DiscRead::Got(v) if v == vec![9]
    ));
}

#[test]
fn a_scan_drops_what_could_not_be_read() {
    let got = scan_result(vec![
        XattrValue { name: b"a".to_vec(), value: Some(vec![1]) },
        XattrValue { name: b"b".to_vec(), value: None },
        XattrValue { name: b"c".to_vec(), value: Some(vec![]) },
    ]);
    assert_eq!(got, vec![(b"a".to_vec(), vec![1]), (b"c".to_vec(), vec![])]);
}

#[test]
fn a_refetch_probes_reads_and_gives_up() {
    let mut r = Refetch::new(3);
    assert_eq!(r.probed(Ok(100)), Some(100));
    assert!(matches!(
        r.read(Err(Error::Errno(Errno::ERANGE)), vec![0; 100]),
        RefetchNext::Probe
    ));
    // Grown in between: half as much again.
    assert_eq!(r.probed(Ok(100)), Some(150));
    assert_eq!(r.probed(Ok(XATTR_SIZE_MAX + 1)), None);
    assert_eq!(r.probed(Err(Error::Errno(Errno::ENODATA))), None);
    assert!(matches!(
        r.read(Err(Error::Errno(Errno::E2BIG)), vec![0; 150]),
        RefetchNext::Probe
    ));
    assert!(matches!(
        r.read(Err(Error::Errno(Errno::E2BIG)), vec![0; 150]),
        RefetchNext::Done(None)
    ));
    let mut r = Refetch::new(3);
    assert!(matches!(r.read(Ok(2), vec![5, 6, 7]), RefetchNext::Done(Some(v)) if v == vec![5, 6]));
    let mut r = Refetch::new(3);
    assert!(matches!(r.read(Err(Error::Errno(Errno::EIO)), vec![]), RefetchNext::Done(None)));
}
