use mdict_core::mdx_db::KeyIndex;
use mdict_core::mdx_db::MdxDb;
use mdict_core::mdx_db::MdxIndex;
use mdict_core::mdx_db_group::MdxDbGroup;
use mdict_core::mdx_db_group::enabled_profiles;
use mdict_core::mdx_profile::MdxProfile;

fn rec(profile_id: i32, entry_no: i64, key: &str) -> MdxIndex {
    MdxIndex { profile_id, key_index: KeyIndex { entry_no, key: String::from(key) } }
}

fn union_of(urls_and_ids: &[(i32, &str)]) -> MdxProfile {
    let mut g = MdxProfile::new_group(String::from("U"), 100);
    for (id, url) in urls_and_ids.iter() {
        g.replace_profile(&MdxProfile::new(String::from(*url), -1, false), *id);
    }
    g
}

fn open_all(profile: &MdxProfile, counts: &[(u64, bool)]) -> Vec<MdxDb> {
    let enabled = enabled_profiles(profile);
    assert_eq!(enabled.len(), counts.len());
    let mut dbs = Vec::new();
    for (i, p) in enabled.into_iter().enumerate() {
        dbs.push(MdxDb::new(p, counts[i].0, counts[i].1));
    }
    dbs
}

#[test]
fn merge_joins_same_headword_across_three_dictionaries() {
    let profile = union_of(&[(10, "file:///a.mdx"), (11, "file:///b.mdx"), (12, "file:///c.mdx")]);
    let dbs = open_all(&profile, &[(5, false), (5, false), (5, false)]);
    let group = MdxDbGroup::new(&profile, dbs).expect("union opens");
    let batches = vec![
        vec![rec(10, 3, "Apple")],
        vec![rec(11, 7, "apple")],
        vec![rec(12, 1, "APPLE")],
    ];
    let results = group.find_best_match_indexes("apple", 10, &batches);
    assert_eq!(results.len(), 1);
    let entry = &results[0];
    assert_eq!(entry.normalized_key, "apple");
    assert_eq!(entry.display_key, "Apple");
    assert_eq!(entry.group_indexes.len(), 3);
    assert_eq!(entry.group_indexes[0].profile_id, 10);
    assert_eq!(entry.group_indexes[1].profile_id, 11);
    assert_eq!(entry.group_indexes[2].profile_id, 12);
    assert_eq!(entry.group_indexes[0].indexes[0].key_index.entry_no, 3);
    assert_eq!(entry.group_indexes[1].indexes[0].key_index.entry_no, 7);
    assert_eq!(entry.group_indexes[2].indexes[0].key_index.entry_no, 1);
}

#[test]
fn merge_keeps_only_first_limit_distinct_keys() {
    let profile = union_of(&[(10, "file:///a.mdx")]);
    let dbs = open_all(&profile, &[(5, false)]);
    let group = MdxDbGroup::new(&profile, dbs).expect("union opens");
    let batches = vec![vec![
        rec(10, 0, "car"),
        rec(10, 1, "cart"),
        rec(10, 2, "cat"),
        rec(10, 3, "dog"),
        rec(10, 4, "emu"),
    ]];
    let results = group.find_best_match_indexes("car", 2, &batches);
    assert_eq!(results.len(), 2);
    assert_eq!(results[0].normalized_key, "car");
    assert_eq!(results[1].normalized_key, "cart");
}

#[test]
fn merge_discards_keys_sorting_before_the_query() {
    let profile = union_of(&[(10, "file:///a.mdx")]);
    let dbs = open_all(&profile, &[(5, false)]);
    let group = MdxDbGroup::new(&profile, dbs).expect("union opens");
    let batches = vec![vec![rec(10, 0, "aardvark"), rec(10, 1, "cat"), rec(10, 2, "dog")]];
    let results = group.find_best_match_indexes("cat", 10, &batches);
    assert_eq!(results.len(), 2);
    assert_eq!(results[0].normalized_key, "cat");
    assert_eq!(results[1].normalized_key, "dog");
}

#[test]
fn merge_results_are_sorted_and_deduplicated() {
    let profile = union_of(&[(10, "file:///a.mdx"), (11, "file:///b.mdx")]);
    let dbs = open_all(&profile, &[(5, false), (5, false)]);
    let group = MdxDbGroup::new(&profile, dbs).expect("union opens");
    let batches = vec![
        vec![rec(10, 0, "delta"), rec(10, 1, "echo")],
        vec![rec(11, 0, "Delta"), rec(11, 1, "charlie")],
    ];
    let results = group.find_best_match_indexes("c", 10, &batches);
    let keys: Vec<&str> = results.iter().map(|r| r.normalized_key.as_str()).collect();
    assert_eq!(keys, vec!["charlie", "delta", "echo"]);
    assert_eq!(results[1].display_key, "delta");
    assert_eq!(results[1].group_indexes.len(), 2);
}

#[test]
fn disabled_leaves_are_not_opened() {
    let mut g = MdxProfile::new_group(String::from("U"), 100);
    g.replace_profile(&MdxProfile::new(String::from("file:///a.mdx"), -1, false), 10);
    let mut off = MdxProfile::new(String::from("file:///b.mdx"), -1, false);
    off.disabled = true;
    g.replace_profile(&off, 11);
    let enabled = enabled_profiles(&g);
    assert_eq!(enabled.len(), 1);
    assert_eq!(enabled[0].profile_id, 10);
}

#[test]
fn group_open_rejects_non_union_profiles() {
    let mut not_union = MdxProfile::new_group(String::from("G"), 100);
    not_union.as_union = false;
    match MdxDbGroup::new(&not_union, Vec::new()) {
        Err(e) => assert_eq!(e.as_str(), "invalid parameter"),
        Ok(_) => panic!("a non-union group must be refused"),
    }
    let leaf = MdxProfile::new(String::from("file:///a.mdx"), 3, false);
    assert!(MdxDbGroup::new(&leaf, Vec::new()).is_err());
}

#[test]
fn fulltext_merge_skips_dictionaries_without_index_and_keeps_all_keys() {
    let profile = union_of(&[(10, "file:///a.mdx"), (11, "file:///b.mdx")]);
    let dbs = open_all(&profile, &[(5, true), (5, false)]);
    let group = MdxDbGroup::new(&profile, dbs).expect("union opens");
    assert!(group.is_fts_available());
    let batches = vec![
        vec![rec(10, 2, "zebra"), rec(10, 3, "ant")],
        vec![rec(11, 9, "bee")],
    ];
    let results = group.fulltext_find("anything", 10, &batches);
    let keys: Vec<&str> = results.iter().map(|r| r.normalized_key.as_str()).collect();
    // The second dictionary has no full-text index: its batch is ignored.
    assert_eq!(keys, vec!["ant", "zebra"]);
}

#[test]
fn normalize_is_case_insensitive_and_alphabetic_only() {
    let a = MdxDb::normalize_keyword("Café!");
    let b = MdxDb::normalize_keyword("café");
    let c = MdxDb::normalize_keyword("CAFÉ");
    assert_eq!(a, "café");
    assert_eq!(a, b);
    assert_eq!(b, c);
    assert_eq!(MdxDb::normalize_keyword("a-b c9d"), "abcd");
    assert_eq!(MdxDb::normalize_keyword("123 !?"), "");
}

#[test]
fn merge_with_zero_limit_is_empty() {
    let profile = union_of(&[(10, "file:///a.mdx")]);
    let dbs = open_all(&profile, &[(5, false)]);
    let group = MdxDbGroup::new(&profile, dbs).expect("union opens");
    let batches = vec![vec![rec(10, 0, "cat"), rec(10, 1, "dog")]];
    let results = group.find_best_match_indexes("cat", 0, &batches);
    assert_eq!(results.len(), 0);
}

#[test]
fn merge_groups_multiple_records_of_one_dictionary_under_one_key() {
    let profile = union_of(&[(10, "file:///a.mdx")]);
    let dbs = open_all(&profile, &[(5, false)]);
    let group = MdxDbGroup::new(&profile, dbs).expect("union opens");
    let batches = vec![vec![rec(10, 0, "cat"), rec(10, 1, "Cat"), rec(10, 2, "CAT")]];
    let results = group.find_best_match_indexes("cat", 5, &batches);
    assert_eq!(results.len(), 1);
    assert_eq!(results[0].display_key, "cat");
    assert_eq!(results[0].group_indexes.len(), 1);
    let idx = &results[0].group_indexes[0].indexes;
    assert_eq!(idx.len(), 3);
    assert_eq!(idx[0].key_index.entry_no, 0);
    assert_eq!(idx[1].key_index.entry_no, 1);
    assert_eq!(idx[2].key_index.entry_no, 2);
}
