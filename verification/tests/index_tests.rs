use std::collections::HashMap;

use dedup::digest::{full_digest, partial_digest};
use dedup::index::{Index, Outcome, Step};

type Files = HashMap<String, Vec<u8>>;

fn files(entries: &[(&str, &[u8])]) -> Files {
    let mut m = Files::new();
    for (p, c) in entries {
        m.insert(p.to_string(), c.to_vec());
    }
    m
}

/// Drives one registration, reading file contents from `fs`, and records
/// which digests the index asked for.
fn register(idx: &mut Index, fs: &Files, path: &str) -> (Outcome, Vec<String>) {
    let size = fs[path].len() as u64;
    register_sized(idx, fs, path, size)
}

fn register_sized(idx: &mut Index, fs: &Files, path: &str, size: u64) -> (Outcome, Vec<String>) {
    let mut log: Vec<String> = Vec::new();
    let mut step = idx.register_begin(path.to_string(), size);
    loop {
        match step {
            Step::Done(o) => return (o, log),
            Step::NeedPartials { rep, fresh } => {
                log.push(format!("partials {} {}", rep, fresh));
                let da = partial_digest(&fs[&rep]);
                let db = partial_digest(&fs[&fresh]);
                step = idx.feed_partials(da, db);
            }
            Step::NeedPartial { fresh } => {
                log.push(format!("partial {}", fresh));
                let d = partial_digest(&fs[&fresh]);
                step = idx.feed_partial(d);
            }
            Step::NeedFull { of } => {
                log.push(format!("full {}", of));
                let d = full_digest(&fs[&of]);
                step = idx.feed_full(d);
            }
        }
    }
}

#[test]
fn end_to_end_two_directories() {
    // Two equal 4-byte files under different directories: one duplicate,
    // the later path duplicates the earlier, 4 bytes reclaimable.
    let fs = files(&[("d1/foo", b"AAAA"), ("d2/bar", b"AAAA")]);
    let mut idx = Index::new(0);
    let mut saved: u64 = 0;
    let mut duplicates = 0;
    for p in ["d1/foo", "d2/bar"] {
        let (o, _) = register(&mut idx, &fs, p);
        if let Outcome::Duplicate(rep) = o {
            assert_eq!(rep, "d1/foo");
            assert_eq!(p, "d2/bar");
            duplicates += 1;
            saved += fs[p].len() as u64;
        }
    }
    assert_eq!(duplicates, 1);
    assert_eq!(saved, 4);
}

#[test]
fn representative_stability() {
    // All later equal files are duplicates of the first seen, never of each
    // other.
    let fs = files(&[("f1", b"same content"), ("f2", b"same content"), ("f3", b"same content")]);
    let mut idx = Index::new(0);
    assert_eq!(register(&mut idx, &fs, "f1").0, Outcome::New);
    assert_eq!(
        register(&mut idx, &fs, "f2").0,
        Outcome::Duplicate("f1".to_string())
    );
    assert_eq!(
        register(&mut idx, &fs, "f3").0,
        Outcome::Duplicate("f1".to_string())
    );
}

#[test]
fn threshold_excludes_small_files() {
    // Files at or below min-size are turned away before anything is hashed.
    let fs = files(&[("small", b"AAAA"), ("big", b"AAAAA"), ("small2", b"BBBB")]);
    let mut idx = Index::new(4);
    let (o, log) = register(&mut idx, &fs, "small");
    assert_eq!(o, Outcome::TooSmall);
    assert!(log.is_empty());
    let (o, log) = register(&mut idx, &fs, "small2");
    assert_eq!(o, Outcome::TooSmall);
    assert!(log.is_empty());
    let (o, _) = register(&mut idx, &fs, "big");
    assert_eq!(o, Outcome::New);
}

#[test]
fn zero_size_at_zero_threshold_is_excluded() {
    // The bound is inclusive: size 0 at min-size 0 is not indexed.
    let fs = files(&[("empty1", b""), ("empty2", b"")]);
    let mut idx = Index::new(0);
    assert_eq!(register(&mut idx, &fs, "empty1").0, Outcome::TooSmall);
    assert_eq!(register(&mut idx, &fs, "empty2").0, Outcome::TooSmall);
}

#[test]
fn short_circuit_on_differing_partials() {
    // Same size, different leading bytes: no full digest is ever requested.
    let fs = files(&[("a", b"XXXX"), ("b", b"YYYY"), ("c", b"ZZZZ")]);
    let mut idx = Index::new(0);
    let (o, log) = register(&mut idx, &fs, "a");
    assert_eq!(o, Outcome::New);
    assert!(log.is_empty());
    let (o, log) = register(&mut idx, &fs, "b");
    assert_eq!(o, Outcome::New);
    assert_eq!(log, vec!["partials a b"]);
    let (o, log) = register(&mut idx, &fs, "c");
    assert_eq!(o, Outcome::New);
    assert_eq!(log, vec!["partial c"]);
}

#[test]
fn full_digest_cached_once_per_path() {
    // Registering a third equal file re-uses the representative's cached full
    // digest: only the incoming file is hashed in full.
    let fs = files(&[("f1", b"dup"), ("f2", b"dup"), ("f3", b"dup")]);
    let mut idx = Index::new(0);
    let (_, log) = register(&mut idx, &fs, "f1");
    assert!(log.is_empty());
    let (o, log) = register(&mut idx, &fs, "f2");
    assert_eq!(o, Outcome::Duplicate("f1".to_string()));
    assert_eq!(log, vec!["partials f1 f2", "full f1", "full f2"]);
    let (o, log) = register(&mut idx, &fs, "f3");
    assert_eq!(o, Outcome::Duplicate("f1".to_string()));
    assert_eq!(log, vec!["partials f1 f3", "full f3"]);
}

#[test]
fn idempotent_re_registration() {
    // Registering the same path again reports it as a duplicate of itself.
    let fs = files(&[("f1", b"only")]);
    let mut idx = Index::new(0);
    assert_eq!(register(&mut idx, &fs, "f1").0, Outcome::New);
    let (o, log) = register(&mut idx, &fs, "f1");
    assert_eq!(o, Outcome::Duplicate("f1".to_string()));
    assert_eq!(log, vec!["partials f1 f1", "full f1"]);
    // And once more, now with the full digest already cached.
    let (o, log) = register(&mut idx, &fs, "f1");
    assert_eq!(o, Outcome::Duplicate("f1".to_string()));
    assert_eq!(log, vec!["partials f1 f1"]);
}

#[test]
fn grouped_bucket_scans_candidates_in_order() {
    // x and y share size and partial digest but differ in full content; z
    // equals x. The group is scanned in registration order, so z duplicates x.
    let mut cx = vec![7u8; 100000];
    let mut cy = vec![7u8; 100000];
    cx[99999] = 1;
    cy[99999] = 2;
    let cz = cx.clone();
    let mut fs = Files::new();
    fs.insert("x".to_string(), cx);
    fs.insert("y".to_string(), cy);
    fs.insert("z".to_string(), cz);
    let mut idx = Index::new(0);
    assert_eq!(register(&mut idx, &fs, "x").0, Outcome::New);
    let (o, log) = register(&mut idx, &fs, "y");
    assert_eq!(o, Outcome::New);
    assert_eq!(log, vec!["partials x y", "full x", "full y"]);
    let (o, log) = register(&mut idx, &fs, "z");
    assert_eq!(o, Outcome::Duplicate("x".to_string()));
    // x's full digest is already cached; only z is hashed in full.
    assert_eq!(log, vec!["partial z", "full z"]);
}

#[test]
fn grouped_bucket_new_member_under_known_partial() {
    // w shares size and partial digest with x and y but matches neither in
    // full: it is registered as new under the shared partial digest.
    let mut cx = vec![7u8; 100000];
    let mut cy = vec![7u8; 100000];
    let mut cw = vec![7u8; 100000];
    cx[99999] = 1;
    cy[99999] = 2;
    cw[99999] = 3;
    let mut fs = Files::new();
    fs.insert("x".to_string(), cx);
    fs.insert("y".to_string(), cy);
    fs.insert("w".to_string(), cw);
    let mut idx = Index::new(0);
    assert_eq!(register(&mut idx, &fs, "x").0, Outcome::New);
    assert_eq!(register(&mut idx, &fs, "y").0, Outcome::New);
    let (o, log) = register(&mut idx, &fs, "w");
    assert_eq!(o, Outcome::New);
    assert_eq!(log, vec!["partial w", "full w"]);
}

#[test]
fn remove_mode_counts_and_savings() {
    // The decision layer behind a removal run: one duplicate removed, its
    // size saved. (Printing the summary line is the caller's concern.)
    let fs = files(&[("keep", b"CCCCCCCC"), ("gone", b"CCCCCCCC")]);
    let mut idx = Index::new(0);
    let mut removed = 0;
    let mut saved: u64 = 0;
    for p in ["keep", "gone"] {
        if let (Outcome::Duplicate(rep), _) = register(&mut idx, &fs, p) {
            if rep != p {
                removed += 1;
                saved += fs[p].len() as u64;
            }
        }
    }
    assert_eq!(removed, 1);
    assert_eq!(saved, 8);
}
