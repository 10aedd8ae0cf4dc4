use mdict_core::library_mgr::LibraryManager;
use mdict_core::mdx_profile::DEFAULT_GROUP_ID;
use mdict_core::mdx_profile::MdxProfile;

fn leaf(url: &str, id: i32) -> MdxProfile {
    MdxProfile::new(String::from(url), id, false)
}

#[test]
fn default_group_exists_on_new() {
    let m = LibraryManager::new();
    let g = m.get_group(DEFAULT_GROUP_ID).expect("default group must exist");
    assert_eq!(g.profile_id, DEFAULT_GROUP_ID);
    assert!(g.is_group());
    assert_eq!(g.title, "All databases");
    assert!(g.as_union);
}

#[test]
fn next_profile_id_exceeds_every_nested_id() {
    let mut m = LibraryManager::new();
    let mut group = MdxProfile::new_group(String::from("Extra"), 7);
    group.replace_profile(&leaf("file:///a.mdx", -1), 40);
    group.replace_profile(&leaf("file:///b.mdx", -1), 12);
    m.replace_group_profile(&group);
    assert_eq!(m.get_next_profile_id(), 41);
}

#[test]
fn remove_profile_reports_absence_and_keeps_tree() {
    let mut m = LibraryManager::new();
    let mut group = MdxProfile::new_group(String::from("G"), 5);
    group.replace_profile(&leaf("file:///a.mdx", -1), 6);
    m.replace_group_profile(&group);
    let before = m.to_json();
    assert!(!m.remove_profile(99));
    let after = m.to_json();
    assert_eq!(before, after);
    let reloaded = LibraryManager::from_json(&after).expect("round trip must parse");
    assert_eq!(reloaded.to_json(), before);
}

#[test]
fn remove_profile_removes_leaf_inside_group() {
    let mut m = LibraryManager::new();
    let mut group = MdxProfile::new_group(String::from("G"), 5);
    group.replace_profile(&leaf("file:///a.mdx", -1), 6);
    m.replace_group_profile(&group);
    assert!(m.remove_profile(6));
    let g = m.get_group(5).expect("group stays");
    assert!(g.get_profile(6).is_none());
    assert!(m.remove_profile(5));
    assert!(m.get_group(5).is_none());
}

#[test]
fn catalog_json_exact_shape() {
    let mut m = LibraryManager::new();
    let json = m.to_json();
    assert_eq!(
        json,
        "[{\"title\":\"All databases\",\"description\":\"\",\"url\":\"\",\"disabled\":false,\
         \"profileId\":1,\"options\":{\"fontFilePath\":\"\"},\"profiles\":[],\"asUnion\":true}]"
    );
    let reloaded = LibraryManager::from_json(&json).expect("own output parses");
    assert_eq!(reloaded.to_json(), json);
    assert!(m.remove_profile(2) == false);
}

#[test]
fn catalog_json_escapes_quotes_and_backslashes() {
    let mut m = LibraryManager::new();
    let mut group = MdxProfile::new_group(String::from("a\"b\\c"), 2);
    group.replace_profile(&leaf("file:///x%22.mdx", -1), 3);
    m.replace_group_profile(&group);
    let json = m.to_json();
    let reloaded = LibraryManager::from_json(&json).expect("escaped output parses");
    assert_eq!(reloaded.to_json(), json);
    let g = reloaded.get_group(2).expect("group is back");
    assert_eq!(g.title, "a\"b\\c");
}

#[test]
fn from_json_rejects_garbage() {
    match LibraryManager::from_json("{not a catalog}") {
        Err(e) => assert_eq!(e.as_str(), "invalid data format"),
        Ok(_) => panic!("garbage must not parse"),
    }
}

#[test]
fn from_json_adds_default_group() {
    let m = LibraryManager::from_json("[]").expect("empty catalog parses");
    assert!(m.get_group(DEFAULT_GROUP_ID).is_some());
}

#[test]
fn refresh_twice_is_idempotent() {
    let mut m = LibraryManager::new();
    let urls = vec![
        String::from("file:///dicts/alpha.mdx"),
        String::from("file:///dicts/beta.mdx"),
    ];
    m.refresh_library(&urls);
    let first = m.to_json();
    m.refresh_library(&urls);
    let second = m.to_json();
    assert_eq!(first, second);
}

#[test]
fn refresh_keeps_matched_ids_and_drops_missing_urls() {
    let mut m = LibraryManager::new();
    let urls = vec![
        String::from("file:///dicts/alpha.mdx"),
        String::from("file:///dicts/beta.mdx"),
    ];
    m.refresh_library(&urls);
    let alpha_id = {
        let g = m.get_group(DEFAULT_GROUP_ID).unwrap();
        let ps = g.get_profiles().unwrap();
        assert_eq!(ps.len(), 2);
        assert_eq!(ps[0].url, "file:///dicts/alpha.mdx");
        assert_eq!(ps[0].title, "alpha");
        ps[0].profile_id
    };
    let urls2 = vec![
        String::from("file:///dicts/alpha.mdx"),
        String::from("file:///dicts/gamma.mdx"),
    ];
    m.refresh_library(&urls2);
    let g = m.get_group(DEFAULT_GROUP_ID).unwrap();
    let ps = g.get_profiles().unwrap();
    assert_eq!(ps.len(), 2);
    assert_eq!(ps[0].url, "file:///dicts/alpha.mdx");
    assert_eq!(ps[0].profile_id, alpha_id);
    assert_eq!(ps[1].url, "file:///dicts/gamma.mdx");
    assert_ne!(ps[1].profile_id, alpha_id);
    for p in ps.iter() {
        assert_ne!(p.url, "file:///dicts/beta.mdx");
    }
}

#[test]
fn create_group_inherits_default_children_under_fresh_id() {
    let mut m = LibraryManager::new();
    let urls = vec![String::from("file:///dicts/alpha.mdx")];
    m.refresh_library(&urls);
    let next = m.get_next_profile_id();
    let g = m.create_group(String::from("Mine"));
    assert_eq!(g.profile_id, next);
    assert_eq!(g.title, "Mine");
    let children = g.get_profiles().expect("new group is a group");
    assert_eq!(children.len(), 1);
    assert_eq!(children[0].url, "file:///dicts/alpha.mdx");
    assert!(m.get_group(next).is_some());
}

#[test]
fn adjust_group_order_moves_and_appends_when_out_of_range() {
    let mut m = LibraryManager::new();
    m.replace_group_profile(&MdxProfile::new_group(String::from("A"), 2));
    m.replace_group_profile(&MdxProfile::new_group(String::from("B"), 3));
    m.adjust_group_order(3, 0);
    assert_eq!(m.get_groups()[0].profile_id, 3);
    m.adjust_group_order(3, 100);
    let groups = m.get_groups();
    assert_eq!(groups[groups.len() - 1].profile_id, 3);
}

#[test]
fn adjust_profile_order_within_group() {
    let mut m = LibraryManager::new();
    let mut group = MdxProfile::new_group(String::from("G"), 9);
    group.replace_profile(&leaf("file:///a.mdx", -1), 10);
    group.replace_profile(&leaf("file:///b.mdx", -1), 11);
    group.replace_profile(&leaf("file:///c.mdx", -1), 12);
    m.replace_group_profile(&group);
    m.adjust_profile_order(9, 12, 0);
    let g = m.get_group(9).unwrap();
    let ps = g.get_profiles().unwrap();
    assert_eq!(ps[0].profile_id, 12);
    assert_eq!(ps[1].profile_id, 10);
    assert_eq!(ps[2].profile_id, 11);
}

#[test]
fn find_profile_searches_top_level_then_default_group() {
    let mut m = LibraryManager::new();
    let urls = vec![String::from("file:///dicts/alpha.mdx")];
    m.refresh_library(&urls);
    let leaf_id = m.get_group(DEFAULT_GROUP_ID).unwrap().get_profiles().unwrap()[0].profile_id;
    assert!(m.find_profile(DEFAULT_GROUP_ID).is_some());
    let found = m.find_profile(leaf_id).expect("leaf resolves through default group");
    assert_eq!(found.url, "file:///dicts/alpha.mdx");
    assert!(m.find_profile(9999).is_none());
}

#[test]
fn catalog_json_round_trips_negative_and_large_ids() {
    let mut m = LibraryManager::new();
    let mut group = MdxProfile::new_group(String::from("Big"), 2147483647);
    group.replace_profile(&leaf("file:///x.mdx", -1), 1000000);
    m.replace_group_profile(&group);
    let json = m.to_json();
    let reloaded = LibraryManager::from_json(&json).expect("ids inside i32 round trip");
    assert_eq!(reloaded.to_json(), json);
    assert!(reloaded.get_group(2147483647).is_some());
}

#[test]
fn nested_groups_round_trip() {
    let mut m = LibraryManager::new();
    let mut inner = MdxProfile::new_group(String::from("Inner"), 20);
    inner.replace_profile(&leaf("file:///deep.mdx", -1), 21);
    let mut outer = MdxProfile::new_group(String::from("Outer"), 10);
    outer.replace_profile(&inner, 0);
    m.replace_group_profile(&outer);
    assert_eq!(m.get_next_profile_id(), 22);
    let json = m.to_json();
    let reloaded = LibraryManager::from_json(&json).expect("nested groups parse");
    assert_eq!(reloaded.to_json(), json);
}
