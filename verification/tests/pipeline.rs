use pair_anonymizer::anonymize::{fresh_mtime, Op, SECS_IN_HOUR, SECS_IN_TEN_DAYS};
use pair_anonymizer::engine::process_sibling_set;
use pair_anonymizer::grouping::{group_by_depth, group_files_by_parent, group_by_grandparent};
use pair_anonymizer::model::{DirGroup, Entry, FileName};
use rand::SeedableRng;
use rand::rngs::StdRng;
use std::collections::HashMap;

const NOW: i64 = 1_700_000_000;

fn name(stem: &str, ext: &str) -> FileName {
    FileName { stem: stem.to_string(), ext: ext.to_string() }
}

fn dir(parts: &[&str]) -> Vec<String> {
    parts.iter().map(|p| p.to_string()).collect()
}

fn group(d: &[&str], stems: &[&str]) -> DirGroup {
    DirGroup { dir: dir(d), files: stems.iter().map(|s| name(s, "jpg")).collect() }
}

fn entry(depth: usize, is_file: bool, d: &[&str], stem: &str, ext: &str) -> Entry {
    Entry { depth, is_file, dir: dir(d), name: name(stem, ext) }
}

#[test]
fn depth_grouping_partitions_entries() {
    let entries = vec![
        entry(0, false, &[""], "root", ""),
        entry(2, true, &["", "a"], "x", "jpg"),
        entry(1, false, &[""], "a", ""),
        entry(2, true, &["", "a"], "y", "jpg"),
    ];
    let buckets = group_by_depth(&entries);
    assert_eq!(buckets.len(), 3);
    assert_eq!(buckets[0].len(), 1);
    assert_eq!(buckets[1].len(), 1);
    assert_eq!(buckets[2].len(), 2);
    assert_eq!(buckets[2][0].name.stem, "x");
    assert_eq!(buckets[2][1].name.stem, "y");
}

#[test]
fn parent_grouping_keeps_files_only() {
    let entries = vec![
        entry(2, true, &["", "g", "a"], "1", "jpg"),
        entry(2, false, &["", "g"], "a", ""),
        entry(2, true, &["", "g", "b"], "2", "jpg"),
        entry(2, true, &["", "g", "a"], "3", "jpg"),
    ];
    let groups = group_files_by_parent(&entries);
    assert_eq!(groups.len(), 2);
    let ga = groups.iter().find(|g| g.dir == dir(&["", "g", "a"])).unwrap();
    assert_eq!(ga.files.len(), 2);
    assert_eq!(ga.files[0].stem, "1");
    assert_eq!(ga.files[1].stem, "3");
    let gb = groups.iter().find(|g| g.dir == dir(&["", "g", "b"])).unwrap();
    assert_eq!(gb.files.len(), 1);
}

#[test]
fn grandparent_grouping_builds_sibling_sets() {
    let groups = vec![
        group(&["", "g1", "a"], &["1"]),
        group(&["", "g2", "c"], &["9"]),
        group(&["", "g1", "b"], &["2"]),
        group(&[], &["stray"]),
    ];
    let (sets, skipped) = group_by_grandparent(&groups);
    assert_eq!(sets.len(), 2);
    let s1 = sets.iter().find(|s| s.grandparent == dir(&["", "g1"])).unwrap();
    assert_eq!(s1.dirs.len(), 2);
    let s2 = sets.iter().find(|s| s.grandparent == dir(&["", "g2"])).unwrap();
    assert_eq!(s2.dirs.len(), 1);
    assert_eq!(skipped.len(), 1);
    assert_eq!(skipped[0].files[0].stem, "stray");
}

#[test]
fn fresh_time_stays_in_window() {
    let mut rng = StdRng::seed_from_u64(5);
    for _ in 0..200 {
        let t = fresh_mtime(NOW, &mut rng);
        assert!(t <= NOW - SECS_IN_HOUR as i64);
        assert!(t > NOW - SECS_IN_TEN_DAYS as i64);
    }
}

#[test]
fn orphan_set_numbers_files_one_to_n() {
    let mut rng = StdRng::seed_from_u64(11);
    let groups = vec![group(&["", "g", "solo"], &["a", "b", "c", "d"])];
    let ops = process_sibling_set(groups, NOW, &mut rng);
    assert_eq!(ops.len(), 4);
    let mut identities = Vec::new();
    let mut stems = Vec::new();
    for op in &ops {
        match op {
            Op::Final(f) => {
                identities.push(f.identity);
                stems.push(f.audit_original.stem.clone());
                assert_eq!(f.dir, dir(&["", "g", "solo"]));
                assert_eq!(f.new_name.stem, f.identity.to_string());
                assert_eq!(f.new_name.ext, "jpg");
                assert!(f.new_mtime_secs <= NOW - SECS_IN_HOUR as i64);
                assert!(f.new_mtime_secs > NOW - SECS_IN_TEN_DAYS as i64);
            }
            Op::Transitional(_) => panic!("orphan plan has no transitional rename"),
        }
    }
    identities.sort();
    assert_eq!(identities, vec![1, 2, 3, 4]);
    // the shuffle permutes the files but keeps them as a set
    stems.sort();
    assert_eq!(stems, vec!["a", "b", "c", "d"]);
}

#[test]
fn two_directories_share_identities() {
    let mut rng = StdRng::seed_from_u64(3);
    let a = dir(&["", "g", "a"]);
    let b = dir(&["", "g", "b"]);
    let groups = vec![
        group(&["", "g", "a"], &["1", "2", "3"]),
        group(&["", "g", "b"], &["2", "3", "4"]),
    ];
    let ops = process_sibling_set(groups, NOW, &mut rng);
    let mut transitional: usize = 0;
    // map (dir-is-a, audit stem) -> identity
    let mut by_file: HashMap<(bool, String), usize> = HashMap::new();
    let mut by_identity: HashMap<usize, usize> = HashMap::new();
    for op in &ops {
        match op {
            Op::Transitional(t) => {
                transitional += 1;
                assert_eq!(t.new_name.stem, format!("{}T", t.old_name.stem));
                assert_eq!(t.new_name.ext, t.old_name.ext);
            }
            Op::Final(f) => {
                assert_eq!(f.new_name.ext, "jpg");
                assert_eq!(f.new_name.stem, f.identity.to_string());
                // the transitional marker is stripped for the audit name
                assert_eq!(format!("{}T", f.audit_original.stem), f.old_name.stem);
                let in_a = f.dir == a;
                assert!(in_a || f.dir == b);
                by_file.insert((in_a, f.audit_original.stem.clone()), f.identity);
                *by_identity.entry(f.identity).or_insert(0) += 1;
            }
        }
    }
    assert_eq!(transitional, 6);
    assert_eq!(by_file.len(), 6);
    // three identities, each carried by exactly two files, one per side
    let mut identities: Vec<usize> = by_identity.keys().cloned().collect();
    identities.sort();
    assert_eq!(identities, vec![1, 2, 3]);
    assert!(by_identity.values().all(|&c| c == 2));
    // exact-name pairs share an identity across the two directories
    assert_eq!(by_file[&(true, "2".to_string())], by_file[&(false, "2".to_string())]);
    assert_eq!(by_file[&(true, "3".to_string())], by_file[&(false, "3".to_string())]);
    // the residue cross-pairs 1 (from a) with 4 (from b)
    assert_eq!(by_file[&(true, "1".to_string())], by_file[&(false, "4".to_string())]);
}

#[test]
fn overlapping_pair_wins_and_third_becomes_orphan() {
    let mut rng = StdRng::seed_from_u64(23);
    let groups = vec![
        group(&["", "g", "a"], &["1", "2", "3", "4", "5"]),
        group(&["", "g", "b"], &["1", "2", "3", "4", "5"]),
        group(&["", "g", "c"], &["x", "y"]),
    ];
    let ops = process_sibling_set(groups, NOW, &mut rng);
    let c = dir(&["", "g", "c"]);
    let mut c_identities = Vec::new();
    for op in &ops {
        match op {
            Op::Final(f) => {
                if f.dir == c {
                    // orphan files keep their on-disk name in the audit
                    assert_eq!(f.audit_original.stem, f.old_name.stem);
                    c_identities.push(f.identity);
                }
            }
            Op::Transitional(t) => {
                // only the matched pair of directories is transitionally renamed
                assert_ne!(t.dir, c);
            }
        }
    }
    c_identities.sort();
    assert_eq!(c_identities, vec![1, 2]);
}

#[test]
fn runs_with_same_seed_agree() {
    let groups = || vec![
        group(&["", "g", "a"], &["1", "2", "3"]),
        group(&["", "g", "b"], &["2", "3", "4"]),
    ];
    let mut r1 = StdRng::seed_from_u64(99);
    let mut r2 = StdRng::seed_from_u64(99);
    let ops1 = process_sibling_set(groups(), NOW, &mut r1);
    let ops2 = process_sibling_set(groups(), NOW, &mut r2);
    assert_eq!(ops1.len(), ops2.len());
    for (x, y) in ops1.iter().zip(ops2.iter()) {
        match (x, y) {
            (Op::Final(a), Op::Final(b)) => {
                assert_eq!(a.identity, b.identity);
                assert_eq!(a.old_name.stem, b.old_name.stem);
                assert_eq!(a.new_mtime_secs, b.new_mtime_secs);
            }
            (Op::Transitional(a), Op::Transitional(b)) => {
                assert_eq!(a.old_name.stem, b.old_name.stem);
            }
            _ => panic!("plans diverge"),
        }
    }
}

#[test]
fn empty_sibling_set_plans_nothing() {
    let mut rng = StdRng::seed_from_u64(1);
    let ops = process_sibling_set(Vec::new(), NOW, &mut rng);
    assert!(ops.is_empty());
}
