//! Listing a directory: reading, ordering and enriching its entries.
use std::collections::VecDeque;
use std::sync::Arc;
use uring_fs::enrich::{
    finish_entry, found, is_cross_dev, judge, opened, reading, reads, request, unknown_device_verdict,
    wants_statx_by_name, Batch, Judged, Sent, Settled,
};
use uring_fs::errno::{Errno, Error};
use uring_fs::file::{File, Statx};
use uring_fs::listing::{
    arrange, query_directory, resolve_types, unknown_types, ClumpReader, EnrichSpec, Listed,
    Order, QueryOptions, QueryStep, ENRICH_ACL, ENRICH_STATX, ENRICH_XATTR, ENRICH_XATTR_LIST,
};
use uring_fs::pending::{split_statx, FsPending};
use uring_fs::sys::{DT_DIR, DT_REG, DT_UNKNOWN, O_NONBLOCK};
use uring_fs::table::FsOutcome;
use uring_fs::xattrs::{DiscRead, XattrNamespaces, NS_USER};

struct Fd;

fn outcome(res: Result<i32, Errno>, stat: Option<Statx>) -> FsOutcome<Fd> {
    FsOutcome { res, bufs: Vec::new(), file: None, stat }
}

fn split(res: Result<i32, Errno>) -> Option<Errno> {
    split_statx(Some(FsPending::resolved(outcome(res, None)))).1
}

fn on_device(major: u32) -> Statx {
    Statx { dev: (major, 0), ..Statx::zeroed() }
}

fn statx_ok(major: u32) -> FsPending<Fd> {
    FsPending::resolved(outcome(Ok(0), Some(on_device(major))))
}

fn read_ok(bytes: &[u8]) -> FsPending<Fd> {
    let mut buf = bytes.to_vec();
    buf.resize(64, 0);
    FsPending::resolved(FsOutcome {
        res: Ok(bytes.len() as i32),
        bufs: vec![buf],
        file: None,
        stat: None,
    })
}

fn listed(name: &str, dtype: u8) -> Listed {
    Listed { name: name.as_bytes().to_vec(), dtype }
}

fn keys(v: &[Listed]) -> Vec<String> {
    v.iter().map(|l| String::from_utf8(l.name.clone()).unwrap()).collect()
}

#[test]
fn an_unreadable_device_is_answered_for_the_way_query_tree_would() {
    // Nothing left to list: the entry alone goes.
    for e in [Errno::EACCES, Errno::EPERM, Errno::ENOENT] {
        assert_eq!(
            unknown_device_verdict(Some(e)),
            None,
            "{e:?} should drop the entry, not fail the listing"
        );
    }

    // The filter failing: surfaced, with its own errno.
    for e in [Errno::EBUSY, Errno::EIO, Errno::ENOTDIR] {
        assert_eq!(
            unknown_device_verdict(Some(e)),
            Some(e),
            "{e:?} should fail the listing rather than admit an entry whose filesystem is unknown"
        );
    }

    // No errno at all where a device was owed: not "nothing to list".
    assert_eq!(
        unknown_device_verdict(None),
        Some(Errno::ECONNABORTED),
        "an entry that produced no answer and no reason must surface"
    );
}

#[test]
fn splitting_a_statx_keeps_the_errno_apart_from_the_metadata() {
    for e in [Errno::EACCES, Errno::EBUSY, Errno::ENOENT] {
        assert_eq!(split(Err(e)), Some(e));
    }
    // A success carries no errno, and here no metadata either.
    assert_eq!(split(Ok(0)), None);
    // And an entry for which none was issued reports neither.
    let (st, err) = split_statx::<Fd>(None);
    assert!(st.is_none() && err.is_none());
}

#[test]
fn a_confined_listing_stays_on_its_device() {
    let opts = QueryOptions {
        spec: EnrichSpec { bits: ENRICH_STATX },
        same_device_only: true,
        ..QueryOptions::default()
    };
    let dev = Some((8, 0));
    // Known to be elsewhere from the first answer.
    assert!(opened(listed("mnt", DT_DIR), Some(statx_ok(9)), None, true, dev).is_none());
    assert!(opened(listed("mnt", DT_DIR), Some(statx_ok(9)), None, false, dev).is_some());
    assert!(is_cross_dev(dev, &Some(on_device(9))));
    assert!(!is_cross_dev(dev, &Some(on_device(8))));
    assert!(!is_cross_dev(None, &Some(on_device(9))));
    let sent = |statx| Sent {
        statx,
        named: Vec::new(),
        acl: None,
        found: Vec::new(),
        found_listed: true,
        discovered: Vec::new(),
    };
    let bare = || opened(listed("f", DT_REG), None, None, true, dev).expect("not known yet");
    let verdict = |st: Option<FsPending<Fd>>| judge(&opts, dev, reading(&opts, bare(), sent(st)));
    assert!(matches!(verdict(Some(statx_ok(8))), Judged::Kept(_)));
    assert!(matches!(verdict(Some(statx_ok(9))), Judged::Dropped));
    let failed = |e| Some(FsPending::resolved(outcome(Err(e), None)));
    assert!(matches!(verdict(failed(Errno::ENOENT)), Judged::Dropped));
    assert!(matches!(verdict(failed(Errno::EBUSY)), Judged::Refused(Errno::EBUSY)));
    assert!(matches!(verdict(None), Judged::Refused(Errno::ECONNABORTED)));
    // Without the confinement an unknown device keeps its entry.
    let open = QueryOptions::default();
    assert!(matches!(judge(&open, dev, reading(&open, bare(), sent(None))), Judged::Kept(_)));
}

#[test]
fn what_an_entry_is_asked_for() {
    let statx = EnrichSpec { bits: ENRICH_STATX };
    let r = request(statx, b"f");
    assert!(r.statx && r.open.is_none());
    let xattr = EnrichSpec { bits: ENRICH_XATTR };
    assert!(xattr.needs_open() && xattr.contains(ENRICH_XATTR));
    assert!(!statx.needs_open());
    let r = request(xattr, b"f");
    let how = r.open.expect("an open");
    assert!(how.flags & O_NONBLOCK != 0, "a FIFO must not park it");
    // Where it is opened anyway, the descriptor answers for its metadata.
    let r = request(EnrichSpec { bits: ENRICH_STATX | ENRICH_XATTR }, b"f");
    assert!(!r.statx && r.open.is_some());
    // A name that is no leaf is not asked about.
    assert!(!request(statx, b"a/b").statx);
    assert_eq!(EnrichSpec::empty().bits, 0);
}

#[test]
fn an_entry_gathers_what_was_read_of_it() {
    let opts = QueryOptions {
        spec: EnrichSpec { bits: ENRICH_STATX | ENRICH_XATTR | ENRICH_ACL | ENRICH_XATTR_LIST },
        xattr_names: vec![b"user.a".to_vec(), b"user.b".to_vec()],
        xattr_ns: XattrNamespaces { bits: NS_USER },
        acl_name: b"system.acl".to_vec(),
        ..QueryOptions::default()
    };
    let file = File::new(7, Arc::new(Fd));
    let open = FsPending::resolved(FsOutcome {
        res: Ok(7),
        bufs: Vec::new(),
        file: Some(file),
        stat: None,
    });
    let o = opened(listed("f", DT_REG), Some(statx_ok(8)), Some(open), false, None)
        .expect("kept");
    assert!(o.file.is_some());
    let want = reads(opts.spec, &o);
    assert!(want.named && want.acl && want.listed);
    assert!(!wants_statx_by_name(opts.spec, &o, true));
    let sent = Sent {
        statx: None,
        named: vec![Some(read_ok(b"one")), None],
        acl: Some(read_ok(b"acl")),
        found: vec![b"user.c".to_vec()],
        found_listed: true,
        discovered: vec![Some(read_ok(b"three"))],
    };
    let p = reading(&opts, o, sent);
    let s = match judge(&opts, None, p) {
        Judged::Kept(s) => s,
        _ => panic!("kept"),
    };
    assert_eq!(s.xattrs.len(), 2);
    assert!(matches!(&s.xattrs[0].read, DiscRead::Got(v) if v == b"one"));
    let (a, b) = (s.xattrs.len(), s.discovered.len());
    let e = finish_entry(s, (0..a).map(|_| None).collect(), (0..b).map(|_| None).collect());
    assert_eq!(e.name, b"f");
    assert!(!e.is_dir);
    assert_eq!(e.acl, Some(b"acl".to_vec()));
    assert_eq!(
        e.xattrs,
        vec![
            (b"user.a".to_vec(), Some(b"one".to_vec())),
            (b"user.b".to_vec(), None),
            (b"user.c".to_vec(), Some(b"three".to_vec())),
        ]
    );
    assert!(!e.xattrs_incomplete);
    assert_eq!(e.statx.map(|s| s.dev), Some((8, 0)));
}

#[test]
fn what_is_read_under_its_own_name_is_not_found_again() {
    let listed = || {
        Some(vec![
            b"user.b".to_vec(),
            b"user.a".to_vec(),
            b"user.acl".to_vec(),
            b"trusted.x".to_vec(),
            b"user.b".to_vec(),
        ])
    };
    let opts = |bits| QueryOptions {
        spec: EnrichSpec { bits },
        xattr_names: vec![b"user.a".to_vec()],
        xattr_ns: XattrNamespaces { bits: NS_USER },
        acl_name: b"user.acl".to_vec(),
        ..QueryOptions::default()
    };
    let all = found(&opts(ENRICH_XATTR_LIST), listed());
    assert_eq!(all, (vec![b"user.a".to_vec(), b"user.acl".to_vec(), b"user.b".to_vec()], true));
    let rest = found(&opts(ENRICH_XATTR_LIST | ENRICH_XATTR | ENRICH_ACL), listed());
    assert_eq!(rest, (vec![b"user.b".to_vec()], true));
    assert_eq!(found(&opts(ENRICH_XATTR_LIST), None), (Vec::new(), false));
}

#[test]
fn a_refusal_fails_the_batch_after_all_of_it_was_taken() {
    let kept = |n: &str| {
        Judged::Kept(Settled::<Fd> {
            name: n.as_bytes().to_vec(),
            is_dir: false,
            statx: None,
            file: None,
            xattrs: Vec::new(),
            acl: None,
            discovered: Vec::new(),
            incomplete: false,
        })
    };
    let take = |js: Vec<Judged<Fd>>| {
        let mut b = Batch::new();
        for j in js {
            b.take(j, Vec::new(), Vec::new());
        }
        b.finish()
    };
    let got = take(vec![kept("a"), Judged::Dropped, kept("b")]).expect("a batch");
    let names: Vec<Vec<u8>> = got.into_iter().map(|e| e.name).collect();
    assert_eq!(names, [b"a", b"b"], "those kept, in their order");
    let got = take(vec![
        kept("a"),
        Judged::Refused(Errno::EBUSY),
        kept("b"),
        Judged::Refused(Errno::EIO),
    ]);
    assert!(matches!(got, Err(Error::Errno(Errno::EBUSY))), "the first of them");
}

#[test]
fn only_an_entry_that_was_to_list_its_attributes_can_fail_at_it() {
    let sent = || Sent {
        statx: None,
        named: Vec::new(),
        acl: None,
        found: Vec::new(),
        found_listed: false,
        discovered: Vec::new(),
    };
    let open = || {
        let mut out = outcome(Ok(5), None);
        out.file = Some(File::new(5, Arc::new(Fd)));
        let p = Some(FsPending::resolved(out));
        opened(listed("f", DT_REG), None, p, false, None).expect("kept")
    };
    let lists = QueryOptions {
        spec: EnrichSpec { bits: ENRICH_XATTR_LIST },
        ..QueryOptions::default()
    };
    assert!(reading(&lists, open(), sent()).incomplete);
    assert!(!reading(&QueryOptions::default(), open(), sent()).incomplete);
    let shut = opened(listed("f", DT_REG), None, None, false, None).expect("kept");
    assert!(!reading(&lists, shut, sent()).incomplete);
}

#[test]
fn a_clump_reader_filters_and_tells_an_error_from_the_end() {
    let mut r = ClumpReader::new(Some(b"a".to_vec()), 2);
    assert!(r.wants_more());
    r.offer(b".".to_vec(), DT_DIR);
    r.offer(b"..".to_vec(), DT_DIR);
    r.offer(b"b".to_vec(), DT_REG);
    r.offer(b"a1".to_vec(), DT_REG);
    assert!(r.wants_more());
    r.offer(b"a2".to_vec(), DT_REG);
    assert!(!r.wants_more());
    assert_eq!(keys(&r.full()), ["a1", "a2"]);
    let r = ClumpReader::new(None, 5);
    assert!(matches!(r.ended(libc::EIO), Err(Error::Errno(Errno::EIO))));
    let r = ClumpReader::new(None, 5);
    assert!(r.ended(0).expect("the end").is_empty());
}

#[test]
fn an_unknown_type_is_asked_about() {
    let all = vec![listed("a", DT_UNKNOWN), listed("b", DT_REG), listed("c", DT_UNKNOWN)];
    let asked = unknown_types(&all);
    assert_eq!(asked, vec![0, 2]);
    let got = resolve_types(all, &asked, &vec![Some(true), None]);
    assert_eq!(got[0].dtype, DT_DIR);
    assert_eq!(got[1].dtype, DT_REG);
    assert_ne!(got[2].dtype, DT_DIR, "no answer is not a directory");
}

#[test]
fn arranging_sorts_and_skips_what_came_before() {
    let all = || {
        vec![
            listed("aa", DT_REG),
            listed("a", DT_DIR),
            listed("a.t", DT_REG),
            listed("a-1", DT_REG),
        ]
    };
    assert_eq!(keys(&arrange(all(), true, &None)), ["a-1", "a.t", "a", "aa"]);
    assert_eq!(keys(&arrange(all(), false, &None)), ["a", "a-1", "a.t", "aa"]);
    assert_eq!(keys(&arrange(all(), true, &Some(b"a.t".to_vec()))), ["a", "aa"]);
    assert_eq!(keys(&arrange(all(), false, &Some(b"a-1".to_vec()))), ["a.t", "aa"]);
    // A marker that names nothing cuts where it would stand.
    assert_eq!(keys(&arrange(all(), false, &Some(b"a-2".to_vec()))), ["a.t", "aa"]);
}

/// Drive a listing over `dir` to its end.
fn list(opts: QueryOptions, dir: &[(&str, u8, bool)]) -> Vec<Vec<String>> {
    let mut left: VecDeque<(String, u8, bool)> =
        dir.iter().map(|(n, t, d)| (n.to_string(), *t, *d)).collect();
    let truth: Vec<(String, bool)> = dir.iter().map(|(n, _, d)| (n.to_string(), *d)).collect();
    let prefix = opts.name_prefix.clone();
    let mut q = query_directory(opts, None);
    let mut batches = Vec::new();
    let mut step = q.next();
    loop {
        step = match step {
            QueryStep::End => return batches,
            QueryStep::Fail(e) => panic!("{e:?}"),
            QueryStep::Read { limit } => {
                let mut r = ClumpReader::new(prefix.clone(), limit);
                let mut ended = false;
                while r.wants_more() && !ended {
                    match left.pop_front() {
                        Some((n, t, _)) => r.offer(n.into_bytes(), t),
                        None => ended = true,
                    }
                }
                let got = if ended { r.ended(0) } else { Ok(r.full()) };
                q.read(got)
            }
            QueryStep::Resolve { all, asked } => {
                let answers = asked
                    .iter()
                    .map(|&i| truth.iter().find(|t| t.0.as_bytes() == all[i].name).map(|t| t.1))
                    .collect();
                q.resolved(all, &asked, &answers)
            }
            QueryStep::Enrich(items) => {
                let got = q.enriched(Ok(items)).expect("a batch");
                batches.push(keys(&got));
                q.next()
            }
        };
    }
}

#[test]
fn a_listing_comes_in_clumps_in_the_order_asked_for() {
    let dir = [
        ("b", DT_UNKNOWN, true),
        ("b.x", DT_REG, false),
        ("a", DT_REG, false),
        ("c", DT_REG, false),
    ];
    let opts = |order| QueryOptions { order, clump: 3, ..QueryOptions::default() };
    assert_eq!(list(opts(Order::Readdir), &dir), [vec!["b", "b.x", "a"], vec!["c"]]);
    assert_eq!(list(opts(Order::ByName), &dir), [vec!["a", "b", "b.x"], vec!["c"]]);
    assert_eq!(list(opts(Order::ByPathBytes), &dir), [vec!["a", "b.x", "b"], vec!["c"]]);
    let after = QueryOptions {
        start_after: Some(b"b".to_vec()),
        ..opts(Order::ByName)
    };
    assert_eq!(list(after, &dir), [vec!["b.x", "c"]]);
    let only = QueryOptions {
        name_prefix: Some(b"b".to_vec()),
        ..opts(Order::ByName)
    };
    assert_eq!(list(only, &dir), [vec!["b", "b.x"]]);
}

#[test]
fn a_failure_ends_the_listing() {
    let mut q = query_directory(QueryOptions::default(), None);
    assert!(matches!(q.next(), QueryStep::Read { .. }));
    assert!(matches!(
        q.read(Err(Error::Errno(Errno::EIO))),
        QueryStep::Fail(Error::Errno(Errno::EIO))
    ));
    assert!(matches!(q.next(), QueryStep::End));
}

#[test]
fn defaults_of_a_listing() {
    let o = QueryOptions::default();
    assert_eq!(o.spec.bits, 0);
    assert!(!o.same_device_only);
    assert!(o.name_prefix.is_none() && o.start_after.is_none());
    let level = o.at_level(Order::ByPathBytes, Some(b"p".to_vec()), None);
    assert!(matches!(level.order, Order::ByPathBytes));
    assert_eq!(level.name_prefix, Some(b"p".to_vec()));
    assert_eq!(level.clump, o.clump);
}
