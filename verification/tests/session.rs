use mdict_core::library_mgr::LibraryManager;
use mdict_core::mdict_app::FindFetch;
use mdict_core::mdict_app::FulltextFetch;
use mdict_core::mdict_app::MdictApp;
use mdict_core::mdict_app::SearchFetch;
use mdict_core::mdx_db::KeyIndex;
use mdict_core::mdx_db::MdxDb;
use mdict_core::mdx_db::MdxIndex;
use mdict_core::mdx_db_group::enabled_profiles;
use mdict_core::mdx_profile::DEFAULT_GROUP_ID;

fn rec2(profile_id: i32, entry_no: i64, key: &str) -> MdxIndex {
    MdxIndex { profile_id, key_index: KeyIndex { entry_no, key: String::from(key) } }
}

/// A session over a catalog whose default group has two enabled leaves.
fn session_with_two_dicts() -> (MdictApp, Vec<i32>) {
    let mut m = LibraryManager::new();
    let urls = vec![
        String::from("file:///dicts/alpha.mdx"),
        String::from("file:///dicts/beta.mdx"),
    ];
    m.refresh_library(&urls);
    let app = MdictApp::new(m);
    let ids: Vec<i32> = {
        let g = app.library_manager.get_group(DEFAULT_GROUP_ID).unwrap();
        g.get_profiles().unwrap().iter().map(|p| p.profile_id).collect()
    };
    (app, ids)
}

fn open_default_group(app: &mut MdictApp) {
    let profile = app.library_manager.find_profile(DEFAULT_GROUP_ID).unwrap().clone();
    let mut dbs = Vec::new();
    for p in enabled_profiles(&profile) {
        dbs.push(MdxDb::new(p, 100, true));
    }
    app.open_main_db(DEFAULT_GROUP_ID, dbs).expect("group opens");
}

#[test]
fn open_main_db_rejects_invalid_and_unknown_ids() {
    let (mut app, _ids) = session_with_two_dicts();
    match app.open_main_db(-1, Vec::new()) {
        Err(e) => assert_eq!(e.as_str(), "invalid parameter"),
        Ok(_) => panic!("the invalid-id sentinel must be refused"),
    }
    assert!(app.open_main_db(4242, Vec::new()).is_err());
    assert_eq!(app.get_current_main_profile_id().unwrap(), -1);
}

#[test]
fn open_main_db_clears_a_populated_cache() {
    let (mut app, ids) = session_with_two_dicts();
    open_default_group(&mut app);
    let batches = vec![vec![rec2(ids[0], 0, "ant"), rec2(ids[0], 1, "bee")], vec![]];
    let n = app.fulltext_search("a", 10, FulltextFetch::Group(batches)).expect("search runs");
    assert_eq!(n, 2);
    assert!(app.has_cached_results());
    let rows = app.get_result_key_list(0, 10, Vec::new()).expect("cache pages");
    assert_eq!(rows.len(), 2);
    // Reopening the database must drop the stale cache.
    open_default_group(&mut app);
    assert!(!app.has_cached_results());
    let rows2 = app.get_result_key_list(0, 10, Vec::new()).expect("empty page, not an error");
    assert_eq!(rows2.len(), 0);
}

#[test]
fn incremental_search_group_mode_fills_cache_and_reports_count() {
    let (mut app, ids) = session_with_two_dicts();
    open_default_group(&mut app);
    let batches = vec![
        vec![rec2(ids[0], 0, "car"), rec2(ids[0], 1, "cat")],
        vec![rec2(ids[1], 5, "Cat")],
    ];
    let r = app
        .incremental_search("ca", 10, SearchFetch::Group(batches))
        .expect("search runs")
        .expect("results exist");
    assert_eq!(r, (0, 2));
    let rows = app.get_result_key_list(0, 10, Vec::new()).unwrap();
    assert_eq!(rows[0].0, "car");
    assert_eq!(rows[0].1, 1);
    assert_eq!(rows[1].0, "cat");
    assert_eq!(rows[1].1, 2);
}

#[test]
fn key_list_counts_match_group_indexes_per_position() {
    let (mut app, ids) = session_with_two_dicts();
    open_default_group(&mut app);
    let batches = vec![
        vec![rec2(ids[0], 0, "car"), rec2(ids[0], 1, "cat")],
        vec![rec2(ids[1], 5, "Cat"), rec2(ids[1], 6, "dog")],
    ];
    app.incremental_search("ca", 10, SearchFetch::Group(batches)).unwrap();
    let rows = app.get_result_key_list(0, 10, Vec::new()).unwrap();
    for (i, row) in rows.iter().enumerate() {
        let groups = app.get_group_indexes(i, None).expect("cached position resolves");
        assert_eq!(row.1, groups.len());
    }
}

#[test]
fn single_mode_search_reports_anchor_and_entry_count() {
    let (mut app, ids) = session_with_two_dicts();
    let profile = app.library_manager.find_profile(ids[0]).unwrap().clone();
    app.open_main_db(ids[0], vec![MdxDb::new(profile, 321, false)]).expect("leaf opens");
    let r = app
        .incremental_search("cat", 10, SearchFetch::Single(Some(rec2(ids[0], 17, "cat"))))
        .unwrap();
    assert_eq!(r, Some((17, 321)));
    let none = app.incremental_search("zzz", 10, SearchFetch::Single(None)).unwrap();
    assert_eq!(none, None);
    assert_eq!(app.get_entry_count().unwrap(), 321);
}

#[test]
fn single_mode_fulltext_keeps_each_result_as_its_own_row() {
    let (mut app, ids) = session_with_two_dicts();
    let profile = app.library_manager.find_profile(ids[0]).unwrap().clone();
    app.open_main_db(ids[0], vec![MdxDb::new(profile, 50, true)]).expect("leaf opens");
    let results = vec![rec2(ids[0], 9, "Tea"), rec2(ids[0], 4, "tea")];
    let n = app.fulltext_search("tea", 10, FulltextFetch::Single(results)).unwrap();
    assert_eq!(n, 2);
    let rows = app.get_result_key_list(0, 10, Vec::new()).unwrap();
    assert_eq!(rows[0].0, "Tea");
    assert_eq!(rows[1].0, "tea");
    assert_eq!(rows[0].1, 1);
}

#[test]
fn searches_with_no_open_database_fail() {
    let (mut app, _ids) = session_with_two_dicts();
    assert!(app.incremental_search("a", 5, SearchFetch::Single(None)).is_err());
    assert!(app.fulltext_search("a", 5, FulltextFetch::Single(Vec::new())).is_err());
    assert!(app.get_entry_count().is_err());
    assert!(app.get_result_key_list(0, 5, Vec::new()).is_err());
    assert!(app.get_group_indexes(0, None).is_err());
    // An exact lookup with nothing open is an empty result, not an error.
    let found = app.find_index("cat", FindFetch::Single(None)).unwrap();
    assert_eq!(found.len(), 0);
}

#[test]
fn find_index_group_mode_orders_results_by_profile_order() {
    let (mut app, ids) = session_with_two_dicts();
    open_default_group(&mut app);
    let founds = vec![Some(rec2(ids[0], 2, "cat")), Some(rec2(ids[1], 8, "cat"))];
    let groups = app.find_index("cat", FindFetch::Group(founds)).unwrap();
    assert_eq!(groups.len(), 2);
    assert_eq!(groups[0].profile_id, ids[0]);
    assert_eq!(groups[1].profile_id, ids[1]);
    assert_eq!(groups[0].primary_key, "cat");
    assert_eq!(groups[0].indexes[0].key_index.entry_no, 2);
}

#[test]
fn get_group_indexes_paginates_cache_and_validates_position() {
    let (mut app, ids) = session_with_two_dicts();
    open_default_group(&mut app);
    let batches = vec![vec![rec2(ids[0], 0, "car")], vec![]];
    app.incremental_search("car", 10, SearchFetch::Group(batches)).unwrap();
    let groups = app.get_group_indexes(0, None).unwrap();
    assert_eq!(groups.len(), 1);
    assert_eq!(groups[0].profile_id, ids[0]);
    assert!(app.get_group_indexes(5, None).is_err());
    assert!(app.get_result_key_list(7, 3, Vec::new()).is_err());
}

#[test]
fn base_url_and_search_paths_round_trip() {
    let (mut app, _ids) = session_with_two_dicts();
    assert_eq!(app.get_base_url(), "mdx://mdict.cn/service/");
    app.set_base_url(String::from("mdx://local/")).unwrap();
    assert_eq!(app.get_base_url(), "mdx://local/");
    app.add_lib_search_path(String::from("/tmp/dicts")).unwrap();
    assert_eq!(app.get_lib_search_paths().len(), 1);
    app.clear_lib_search_paths().unwrap();
    assert_eq!(app.get_lib_search_paths().len(), 0);
}

#[test]
fn open_non_union_group_fails_with_invalid_data_format() {
    let mut m = LibraryManager::new();
    let mut plain = mdict_core::mdx_profile::MdxProfile::new_group(String::from("Plain"), 30);
    plain.as_union = false;
    m.replace_group_profile(&plain);
    let mut app = MdictApp::new(m);
    match app.open_main_db(30, Vec::new()) {
        Err(e) => assert_eq!(e.as_str(), "invalid data format"),
        Ok(_) => panic!("a non-union group cannot be opened as a union"),
    }
    assert!(!app.has_cached_results());
}
