//! Byte order of names and paths, the stable sort, and the cut.
use std::cmp::Ordering;
use uring_fs::listing::{arrange, Listed};
use uring_fs::order::{cmp_path_bytes, rank_entries, Rank};
use uring_fs::sort::{cut_point, sort_by_key};
use uring_fs::sys::{DT_DIR, DT_REG};

fn keys(entries: &[(&str, bool)]) -> Vec<String> {
    let mut v = entries.to_vec();
    v.sort_by(|a, b| cmp_path_bytes(a.0.as_bytes(), a.1, b.0.as_bytes(), b.1));
    v.into_iter()
        .map(|(n, d)| if d { format!("{n}/") } else { n.to_string() })
        .collect()
}

#[test]
fn a_directory_sorts_where_its_trailing_separator_puts_it() {
    assert_eq!(
        keys(&[("a", true), ("a-1.txt", false), ("a.txt", false), ("aa.txt", false)]),
        ["a-1.txt", "a.txt", "a/", "aa.txt"],
    );
    let mut bare = ["a", "a-1.txt", "a.txt", "aa.txt"];
    bare.sort_unstable();
    assert_eq!(bare, ["a", "a-1.txt", "a.txt", "aa.txt"]);
}

#[test]
fn separator_ranks_against_dot_at_every_position() {
    assert_eq!(keys(&[("b", true), ("b..", false), ("b.", true)]), ["b..", "b./", "b/"]);
}

#[test]
fn same_name_file_precedes_directory() {
    assert_eq!(keys(&[("a", true), ("a", false)]), ["a", "a/"]);
}

#[test]
fn prefix_names_order_by_the_synthesized_key_length() {
    assert_eq!(keys(&[("ab", false), ("a", false), ("a", true)]), ["a", "a/", "ab"]);
    assert_eq!(cmp_path_bytes(b"a", true, b"ab", false), Ordering::Less);
}

#[test]
fn identical_entries_compare_equal() {
    assert_eq!(cmp_path_bytes(b"x", false, b"x", false), Ordering::Equal);
    assert_eq!(cmp_path_bytes(b"x", true, b"x", true), Ordering::Equal);
}

#[test]
fn matches_comparing_materialized_keys() {
    let names = ["a", "a-", "a.", "a/", "a0", "aa", "", "-", ".", "z", "a.b", "a-b"];
    let key = |n: &str, d: bool| {
        let mut k = n.to_string();
        if d {
            k.push('/');
        }
        k
    };
    for a in names {
        for b in names {
            for ad in [false, true] {
                for bd in [false, true] {
                    assert_eq!(
                        cmp_path_bytes(a.as_bytes(), ad, b.as_bytes(), bd),
                        key(a, ad).cmp(&key(b, bd)),
                        "({a:?},{ad}) vs ({b:?},{bd})",
                    );
                }
            }
        }
    }
}

fn listed(name: &str, dir: bool) -> Listed {
    Listed { name: name.as_bytes().to_vec(), dtype: if dir { DT_DIR } else { DT_REG } }
}

fn shown(v: &[Listed]) -> Vec<String> {
    v.iter()
        .map(|e| {
            let n = String::from_utf8(e.name.clone()).unwrap();
            if e.dtype == DT_DIR { format!("{n}/") } else { n }
        })
        .collect()
}

#[test]
fn a_total_order_ranks_both_ways_round() {
    assert_eq!(rank_entries(b"a", false, b"b", false), Rank::Before);
    assert_eq!(rank_entries(b"b", false, b"a", false), Rank::After);
    assert_eq!(rank_entries(b"a", true, b"a", true), Rank::Same);
    assert_eq!(rank_entries(b"", true, b"/", false), Rank::Same);
}

#[test]
fn a_sort_keeps_entries_of_one_key_in_their_order() {
    let v = vec![
        Listed { name: b"b".to_vec(), dtype: 1 },
        Listed { name: b"a".to_vec(), dtype: 2 },
        Listed { name: b"b".to_vec(), dtype: 3 },
        Listed { name: b"a".to_vec(), dtype: 6 },
    ];
    let s = sort_by_key(v, false);
    let got: Vec<(Vec<u8>, u8)> = s.into_iter().map(|e| (e.name, e.dtype)).collect();
    assert_eq!(
        got,
        vec![(b"a".to_vec(), 2), (b"a".to_vec(), 6), (b"b".to_vec(), 1), (b"b".to_vec(), 3)]
    );
}

#[test]
fn a_large_sort_is_sorted() {
    let mut names = Vec::new();
    let mut x: u32 = 7;
    for _ in 0..2000 {
        x = x.wrapping_mul(1664525).wrapping_add(1013904223);
        names.push(format!("{:x}", x % 997));
    }
    let v: Vec<Vec<u8>> = names.iter().map(|n| n.as_bytes().to_vec()).collect();
    let mut want = v.clone();
    want.sort();
    assert_eq!(sort_by_key(v, false), want);
}

#[test]
fn a_cut_is_past_the_key_itself() {
    let v = sort_by_key(
        vec![listed("a", true), listed("a.txt", false), listed("b", false)],
        true,
    );
    assert_eq!(shown(&v), ["a.txt", "a/", "b"]);
    assert_eq!(cut_point(&v, b"a.txt", true), 1);
    assert_eq!(cut_point(&v, b"a/", true), 2);
    assert_eq!(cut_point(&v, b"a", true), 0);
    assert_eq!(cut_point(&v, b"zz", true), 3);
}

#[test]
fn resuming_a_listing_repeats_and_skips_nothing() {
    let all = || vec![listed("c", false), listed("a", true), listed("b", false), listed("a.x", false)];
    let whole = arrange(all(), true, &None);
    assert_eq!(shown(&whole), ["a.x", "a/", "b", "c"]);
    let rest = arrange(all(), true, &Some(b"a/".to_vec()));
    assert_eq!(shown(&rest), ["b", "c"]);
    let by_name = arrange(all(), false, &Some(b"a".to_vec()));
    assert_eq!(shown(&by_name), ["a.x", "b", "c"]);
}

#[test]
fn sorting_directories_by_path_composes_with_descent() {
    // Everything below `a/` stays between `a.txt` and `aa`.
    let mut paths = vec!["a.txt", "a/", "a/z", "aa"];
    let sorted = paths.clone();
    paths.sort_unstable();
    assert_eq!(paths, sorted);
    assert_eq!(keys(&[("aa", false), ("a", true), ("a.txt", false)]), ["a.txt", "a/", "aa"]);
}
