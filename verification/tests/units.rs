use pair_anonymizer::model::{FileName, render_name, render_path, names_equal, dirs_equal};
use pair_anonymizer::text::{u64_to_dec, join_strings};
use pair_anonymizer::audit::audit_record;
use pair_anonymizer::consolidate::{consolidation_target, Subdir};
use pair_anonymizer::matching::{count_matching_files, relate, best_of};
use pair_anonymizer::pairing::{match_paired_files, match_unpaired_files};

fn name(stem: &str, ext: &str) -> FileName {
    FileName { stem: stem.to_string(), ext: ext.to_string() }
}

fn dir(parts: &[&str]) -> Vec<String> {
    parts.iter().map(|p| p.to_string()).collect()
}

#[test]
fn decimal_rendering() {
    assert_eq!(u64_to_dec(0), "0");
    assert_eq!(u64_to_dec(7), "7");
    assert_eq!(u64_to_dec(42), "42");
    assert_eq!(u64_to_dec(1234567890), "1234567890");
    assert_eq!(u64_to_dec(u64::MAX), "18446744073709551615");
}

#[test]
fn joining_components() {
    assert_eq!(join_strings(&dir(&["a", "b", "c"]), "/"), "a/b/c");
    assert_eq!(join_strings(&dir(&["", "home", "u"]), "/"), "/home/u");
    assert_eq!(join_strings(&dir(&["solo"]), "_"), "solo");
    assert_eq!(join_strings(&Vec::new(), "/"), "");
}

#[test]
fn rendering_names_and_paths() {
    let f = name("7", "jpg");
    assert_eq!(render_name(&f), "7.jpg");
    assert_eq!(render_path(&dir(&["", "data", "s1"]), &f), "/data/s1/7.jpg");
}

#[test]
fn name_and_dir_equality() {
    assert!(names_equal(&name("a", "jpg"), &name("a", "jpg")));
    assert!(!names_equal(&name("a", "jpg"), &name("a", "png")));
    assert!(dirs_equal(&dir(&["a", "b"]), &dir(&["a", "b"])));
    assert!(!dirs_equal(&dir(&["a", "b"]), &dir(&["a"])));
}

#[test]
fn matching_file_counts() {
    let a = vec![name("1", "jpg"), name("2", "jpg"), name("3", "jpg")];
    let b = vec![name("2", "jpg"), name("3", "jpg"), name("4", "jpg")];
    assert_eq!(count_matching_files(&a, &b), 2);
    assert_eq!(count_matching_files(&b, &a), 2);
    assert_eq!(count_matching_files(&a, &a), 3);
    // duplicates on the counted side count once
    let c = vec![name("2", "jpg"), name("2", "jpg")];
    assert_eq!(count_matching_files(&a, &c), 1);
    let empty: Vec<FileName> = Vec::new();
    assert_eq!(count_matching_files(&a, &empty), 0);
}

#[test]
fn exact_and_unpaired_matching() {
    let a = vec![name("1", "jpg"), name("2", "jpg"), name("3", "jpg")];
    let b = vec![name("2", "jpg"), name("3", "jpg"), name("4", "jpg")];
    let pairs = match_paired_files(&a, &b);
    assert_eq!(pairs.len(), 2);
    assert_eq!(pairs[0].a.as_ref().unwrap().stem, "2");
    assert_eq!(pairs[0].b.as_ref().unwrap().stem, "2");
    assert_eq!(pairs[1].a.as_ref().unwrap().stem, "3");
    let (u1, u2) = match_unpaired_files(&a, &b);
    assert_eq!(u1.len(), 1);
    assert_eq!(u1[0].stem, "1");
    assert_eq!(u2.len(), 1);
    assert_eq!(u2[0].stem, "4");
}

#[test]
fn relate_empty_and_single() {
    let none: Vec<pair_anonymizer::model::DirGroup> = Vec::new();
    assert!(relate(&none).is_none());
    let single = vec![pair_anonymizer::model::DirGroup {
        dir: dir(&["", "d", "a"]),
        files: vec![name("1", "jpg")],
    }];
    let rels = relate(&single).unwrap();
    assert_eq!(rels.len(), 1);
    assert_eq!(rels[0].dir, dir(&["", "d", "a"]));
    assert!(rels[0].candidates.is_empty());
}

#[test]
fn relate_ranks_best_last() {
    // two directories share five names; the third shares none
    let mk = |stems: &[&str], d: &[&str]| pair_anonymizer::model::DirGroup {
        dir: dir(d),
        files: stems.iter().map(|s| name(s, "jpg")).collect(),
    };
    let a = mk(&["1", "2", "3", "4", "5"], &["", "g", "a"]);
    let b = mk(&["1", "2", "3", "4", "5"], &["", "g", "b"]);
    let c = mk(&["x", "y"], &["", "g", "c"]);
    let rels = relate(&vec![a, b, c]).unwrap();
    let top = rels.last().unwrap();
    assert_eq!(top.dir, dir(&["", "g", "a"]));
    assert_eq!(top.candidates[0].dir, dir(&["", "g", "b"]));
    assert_eq!(top.candidates[0].count, 5);
    assert_eq!(best_of(top), 5);
    // ascending best scores across the relations
    let scores: Vec<usize> = rels.iter().map(|r| best_of(r)).collect();
    let mut sorted = scores.clone();
    sorted.sort();
    assert_eq!(scores, sorted);
}

#[test]
fn consolidation_left_right_and_flattening() {
    let (sub, flat) = consolidation_target(
        &dir(&["", "data", "sessionA", "left"]),
        &name("7", "jpg"),
    );
    assert!(matches!(sub, Subdir::Left));
    assert_eq!(flat, "_data_sessionA_7.jpg");
    let (sub, flat) = consolidation_target(&dir(&["", "data", "sessionB", "right"]), &name("9", "png"));
    assert!(matches!(sub, Subdir::Right));
    assert_eq!(flat, "_data_sessionB_9.png");
    let (sub, _) = consolidation_target(&dir(&["", "data", "plain"]), &name("1", "jpg"));
    assert!(matches!(sub, Subdir::Top));
}

#[test]
fn audit_record_embeds_utc_times() {
    let r = audit_record("/d/a.jpg", 1431648000, "/d/1.jpg", 1431640000);
    let t0 = format!(
        "{:?}",
        chrono::DateTime::<chrono::Utc>::from_timestamp(1431648000, 0).unwrap()
    );
    let t1 = format!(
        "{:?}",
        chrono::DateTime::<chrono::Utc>::from_timestamp(1431640000, 0).unwrap()
    );
    let expected = format!(
        "Original file name: /d/a.jpg\nOriginal file time: {}\nNew file name: /d/1.jpg\nNew file time: {}",
        t0, t1
    );
    assert_eq!(r, expected);
}
