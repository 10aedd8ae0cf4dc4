//! The search session: which database is open (none, a single dictionary
//! or a union group), the cache of the last merged search, and the
//! pagination calls that consume it. Fetching records from the dictionary
//! files is the caller's job; every decision about state, cache and
//! result shape is made — and verified — here.

use vstd::prelude::*;
use crate::error::ZdbError;
use crate::library_mgr::LibraryManager;
use crate::library_mgr::LibraryView;
use crate::library_mgr::find_profile_spec;
use crate::mdx_db::DbView;
use crate::mdx_db::EntryNo;
use crate::mdx_db::IndexView;
use crate::mdx_db::MdxDb;
use crate::mdx_db::MdxIndex;
use crate::mdx_db::index_views;
use crate::mdx_db::lemma_index_views;
use crate::mdx_db_group::DbGroupView;
use crate::mdx_db_group::GroupIndexView;
use crate::mdx_db_group::MdxDbGroup;
use crate::mdx_db_group::MdxGroupIndex;
use crate::mdx_db_group::MdxMergedKey;
use crate::mdx_db_group::MergedKeyView;
use crate::mdx_db_group::batch_views;
use crate::mdx_db_group::db_index_of;
use crate::mdx_db_group::db_views;
use crate::mdx_db_group::enabled_children;
use crate::mdx_db_group::lemma_db_index_none;
use crate::mdx_db_group::lemma_db_index_witness;
use crate::mdx_db_group::lemma_db_views;
use crate::mdx_db_group::lemma_group_index_views;
use crate::mdx_db_group::lemma_merged_key_views;
use crate::mdx_db_group::group_index_views;
use crate::mdx_db_group::merge_result_ok;
use crate::mdx_db_group::merged_key_views;
use crate::mdx_profile::INVALID_PROFILE_ID;
use crate::mdx_profile::MdxProfile;
use crate::mdx_profile::ProfileId;
use crate::mdx_profile::ProfileView;
use crate::mdx_profile::profile_view;
use crate::text::norm_of;

verus! {

broadcast use vstd::std_specs::vec::group_vec_axioms;

/// The open main database: one dictionary or a union group.
pub enum DbType {
    MdxDb(MdxDb),
    MdxDbGroup(MdxDbGroup),
}

/// Ghost projection of the open main database.
#[verifier::ext_equal]
pub ghost enum DbTypeView {
    Single(DbView),
    Group(DbGroupView),
}

/// Ghost projection of the whole session.
#[verifier::ext_equal]
pub ghost struct AppView {
    pub library: LibraryView,
    pub main_db: Option<DbTypeView>,
    pub cache: Seq<MergedKeyView>,
    pub base_url: Seq<char>,
    pub lib_search_paths: Seq<Seq<char>>,
}

/// The session: the catalog, the open main database, the cached merged
/// search results, and a few plain settings.
pub struct MdictApp {
    pub library_manager: LibraryManager,
    pub main_db: Option<DbType>,
    group_search_results: Vec<MdxMergedKey>,
    base_url: String,
    lib_search_paths: Vec<String>,
}

impl View for MdictApp {
    type V = AppView;

    closed spec fn view(&self) -> AppView {
        AppView {
            library: self.library_manager@,
            main_db: match self.main_db {
                Option::None => Option::None,
                Option::Some(DbType::MdxDb(db)) => Option::Some(DbTypeView::Single(db@)),
                Option::Some(DbType::MdxDbGroup(g)) => Option::Some(DbTypeView::Group(g@)),
            },
            cache: merged_key_views(self.group_search_results@),
            base_url: self.base_url@,
            lib_search_paths: self.lib_search_paths@.map_values(|s: String| s@),
        }
    }
}

/// What app facts the caller fetched for an incremental search: the best
/// anchor record in single mode, or one record batch per open dictionary
/// in group mode.
pub enum SearchFetch {
    Single(Option<MdxIndex>),
    Group(Vec<Vec<MdxIndex>>),
}

/// What the caller fetched for a full-text search: the capped,
/// relevance-ordered result list in single mode, or one such list per
/// open dictionary in group mode.
pub enum FulltextFetch {
    Single(Vec<MdxIndex>),
    Group(Vec<Vec<MdxIndex>>),
}

/// What the caller fetched for an exact lookup: the found record in
/// single mode, or one optional record per open dictionary in group mode.
pub enum FindFetch {
    Single(Option<MdxIndex>),
    Group(Vec<Option<MdxIndex>>),
}

/// The views of per-dictionary lookup results, in order.
pub open spec fn opt_index_views(s: Seq<Option<MdxIndex>>) -> Seq<Option<IndexView>>
    decreases s,
{
    if s.len() == 0 {
        Seq::empty()
    } else {
        opt_index_views(s.drop_last()).push(
            match s.last() {
                Option::Some(r) => Option::Some(r@),
                Option::None => Option::None,
            },
        )
    }
}

/// `opt_index_views` is the pointwise view.
pub proof fn lemma_opt_index_views(s: Seq<Option<MdxIndex>>)
    ensures
        opt_index_views(s).len() == s.len(),
        forall|i: int|
            0 <= i < s.len() ==> opt_index_views(s)[i] == (match s[i] {
                Option::Some(r) => Option::Some(r@),
                Option::None => Option::None,
            }),
    decreases s.len(),
{
    if s.len() > 0 {
        lemma_opt_index_views(s.drop_last());
    }
}

/// The cache rows a single-dictionary full-text search produces: one row
/// per result record, in relevance order, each holding just that record.
pub open spec fn single_ft_rows(rs: Seq<IndexView>) -> Seq<MergedKeyView>
    decreases rs.len(),
{
    if rs.len() == 0 {
        Seq::empty()
    } else {
        single_ft_rows(rs.drop_last()).push(
            MergedKeyView {
                normalized_key: norm_of(rs.last().key),
                display_key: rs.last().key,
                groups: seq![
                    GroupIndexView {
                        profile_id: rs.last().profile_id,
                        primary_key: rs.last().key,
                        indexes: seq![rs.last()],
                    },
                ],
            },
        )
    }
}

/// The exact-lookup groups in group mode: one singleton group per child
/// profile, in profile order, for each child whose dictionary found the
/// key.
pub open spec fn find_groups(
    cs: Seq<ProfileView>,
    dbs: Seq<DbView>,
    founds: Seq<Option<IndexView>>,
    key: Seq<char>,
) -> Seq<GroupIndexView>
    decreases cs.len(),
{
    if cs.len() == 0 {
        Seq::empty()
    } else {
        find_groups(cs.drop_last(), dbs, founds, key) + (match db_index_of(
            dbs,
            cs.last().profile_id,
        ) {
            Option::Some(j) => match founds[j] {
                Option::Some(f) => seq![
                    GroupIndexView {
                        profile_id: f.profile_id,
                        primary_key: key,
                        indexes: seq![f],
                    },
                ],
                Option::None => Seq::empty(),
            },
            Option::None => Seq::empty(),
        })
    }
}

/// What the key list reports for one cache position: the display key and
/// the number of contributing dictionaries.
pub open spec fn result_key_entry(cache: Seq<MergedKeyView>, j: int) -> (Seq<char>, int) {
    (cache[j].display_key, cache[j].groups.len() as int)
}

/// What `get_group_indexes` returns for one cache position: the full
/// per-dictionary breakdown.
pub open spec fn group_indexes_at(cache: Seq<MergedKeyView>, j: int) -> Seq<GroupIndexView> {
    cache[j].groups
}

/// For any cached search result, the contributing-dictionary count the
/// key list reports for a position equals the number of group index
/// entries returned for the same position.
pub proof fn lemma_key_list_counts_match_groups(cache: Seq<MergedKeyView>, j: int)
    requires
        0 <= j < cache.len(),
    ensures
        result_key_entry(cache, j).1 == group_indexes_at(cache, j).len(),
{
}

impl MdictApp {
    /// The session invariant: an open union group carries a child list.
    pub open spec fn wf(&self) -> bool {
        match self@.main_db {
            Option::Some(DbTypeView::Group(g)) => g.profile.children is Some,
            _ => true,
        }
    }

    /// A fresh session over a loaded catalog: no database open, no cached
    /// results, the default content base url, no search paths.
    pub fn new(library_manager: LibraryManager) -> (r: Self)
        ensures
            r@.library == library_manager@,
            r@.main_db is None,
            r@.cache == Seq::<MergedKeyView>::empty(),
            r@.base_url == "mdx://mdict.cn/service/"@,
            r@.lib_search_paths == Seq::<Seq<char>>::empty(),
            r.wf(),
    {
        let r = MdictApp {
            library_manager,
            main_db: Option::None,
            group_search_results: Vec::new(),
            base_url: String::from_str("mdx://mdict.cn/service/"),
            lib_search_paths: Vec::new(),
        };
        proof {
            assert(r@.lib_search_paths =~= Seq::<Seq<char>>::empty());
        }
        r
    }

    /// Whether a search call has populated the cache.
    pub fn has_cached_results(&self) -> (r: bool)
        ensures
            r == (self@.cache.len() > 0),
    {
        proof {
            lemma_merged_key_views(self.group_search_results@);
        }
        self.group_search_results.len() > 0
    }

    /// Opens the profile with the given id as the main database and
    /// unconditionally clears any previously cached search results. The
    /// caller resolves the profile first and hands in the dictionaries it
    /// opened: one per enabled child for a union group, exactly one for a
    /// leaf. Fails with invalid-parameter for the invalid-id sentinel and
    /// for an id that resolves to nothing, and with invalid-data-format
    /// for a group profile that is not a union.
    pub fn open_main_db(&mut self, profile_id: ProfileId, opened: Vec<MdxDb>) -> (r: Result<
        (),
        ZdbError,
    >)
        requires
            match find_profile_spec(old(self)@.library.groups, profile_id as int) {
                Option::Some(p) => match p.children {
                    Option::Some(cs) => p.as_union ==> ({
                        let enabled = enabled_children(cs);
                        db_views(opened@).len() == enabled.len() && forall|i: int|
                            0 <= i < enabled.len() ==> (#[trigger] db_views(
                                opened@,
                            )[i]).profile.profile_id == enabled[i].profile_id
                    }),
                    Option::None => db_views(opened@).len() == 1 && db_views(
                        opened@,
                    )[0].profile == p,
                },
                Option::None => true,
            },
        ensures
            final(self)@.cache == Seq::<MergedKeyView>::empty(),
            final(self)@.library == old(self)@.library,
            final(self)@.base_url == old(self)@.base_url,
            final(self)@.lib_search_paths == old(self)@.lib_search_paths,
            final(self).wf(),
            ({
                let resolved = find_profile_spec(old(self)@.library.groups, profile_id as int);
                if profile_id == INVALID_PROFILE_ID {
                    (r matches Result::Err(e) && e == ZdbError::InvalidParameter) && final(self)@.main_db is None
                } else {
                    match resolved {
                        Option::None => (r matches Result::Err(e) && e
                            == ZdbError::InvalidParameter) && final(self)@.main_db is None,
                        Option::Some(p) => if p.children is Some {
                            if p.as_union {
                                r is Ok && final(self)@.main_db == Option::Some(
                                    DbTypeView::Group(
                                        DbGroupView { profile: p, dbs: db_views(opened@) },
                                    ),
                                )
                            } else {
                                (r matches Result::Err(e) && e == ZdbError::InvalidDataFormat)
                                    && final(self)@.main_db is None
                            }
                        } else {
                            r is Ok && final(self)@.main_db == Option::Some(
                                DbTypeView::Single(db_views(opened@)[0]),
                            )
                        },
                    }
                }
            }),
    {
        self.main_db = Option::None;
        self.group_search_results = Vec::new();
        if profile_id == INVALID_PROFILE_ID {
            return Result::Err(ZdbError::InvalidParameter);
        }
        let ghost openedv = db_views(opened@);
        proof {
            lemma_db_views(opened@);
        }
        let found = match self.library_manager.find_profile(profile_id) {
            Option::Some(p) => Option::Some(p.clone()),
            Option::None => Option::None,
        };
        match found {
            Option::None => Result::Err(ZdbError::InvalidParameter),
            Option::Some(profile) => {
                if profile.is_group() {
                    match MdxDbGroup::new(&profile, opened) {
                        Result::Ok(g) => {
                            self.main_db = Option::Some(DbType::MdxDbGroup(g));
                            Result::Ok(())
                        },
                        Result::Err(_) => Result::Err(ZdbError::InvalidDataFormat),
                    }
                } else {
                    if opened.len() != 1 {
                        proof {
                            assert(false);
                        }
                        return Result::Err(ZdbError::InvalidDataFormat);
                    }
                    let mut opened = opened;
                    let db = match opened.pop() {
                        Option::Some(db) => db,
                        Option::None => {
                            proof {
                                assert(false);
                            }
                            return Result::Err(ZdbError::InvalidDataFormat);
                        },
                    };
                    self.main_db = Option::Some(DbType::MdxDb(db));
                    Result::Ok(())
                }
            },
        }
    }
}


/// The catalog, the open database and the plain settings agree between
/// two session states.
pub open spec fn same_settings(a: AppView, b: AppView) -> bool {
    a.library == b.library && a.base_url == b.base_url && a.lib_search_paths == b.lib_search_paths
}

impl MdictApp {
    /// Incremental prefix/partial search. The previous cache is cleared
    /// first. Single mode reports the fetched anchor position and the
    /// dictionary's entry count; group mode merges the fetched batches,
    /// replaces the cache, and reports position 0 and the cache length,
    /// or nothing when the merge is empty. Fails with invalid-parameter
    /// when no database is open.
    pub fn incremental_search(
        &mut self,
        query: &str,
        max_results_per_lib: usize,
        fetch: SearchFetch,
    ) -> (r: Result<Option<(EntryNo, usize)>, ZdbError>)
        requires
            old(self).wf(),
            match old(self)@.main_db {
                Option::Some(DbTypeView::Single(_)) => fetch is Single,
                Option::Some(DbTypeView::Group(g)) => fetch matches SearchFetch::Group(b)
                    && b@.len() == g.dbs.len(),
                Option::None => true,
            },
        ensures
            same_settings(final(self)@, old(self)@),
            final(self)@.main_db == old(self)@.main_db,
            final(self).wf(),
            match old(self)@.main_db {
                Option::None => (r matches Result::Err(e) && e == ZdbError::InvalidParameter)
                    && final(self)@.cache == Seq::<MergedKeyView>::empty(),
                Option::Some(DbTypeView::Single(db)) => final(self)@.cache == Seq::<
                    MergedKeyView,
                >::empty() && (match fetch {
                    SearchFetch::Single(anchor) => match anchor {
                        Option::Some(a) => r matches Result::Ok(v) && v matches Option::Some(t)
                            && t.0 as int == a@.entry_no && t.1 == (db.entry_count as usize),
                        Option::None => r matches Result::Ok(v) && v is None,
                    },
                    SearchFetch::Group(_) => true,
                }),
                Option::Some(DbTypeView::Group(g)) => match fetch {
                    SearchFetch::Group(batches) => merge_result_ok(
                        final(self)@.cache,
                        g.profile.children->Some_0,
                        g.dbs,
                        batch_views(batches@),
                        Option::Some(norm_of(query@)),
                        Option::Some(max_results_per_lib as int),
                        false,
                    ) && (if final(self)@.cache.len() == 0 {
                        r matches Result::Ok(v) && v is None
                    } else {
                        r matches Result::Ok(v) && v matches Option::Some(t) && t.0 == 0 && t.1
                            as int == final(self)@.cache.len()
                    }),
                    SearchFetch::Single(_) => true,
                },
            },
    {
        self.group_search_results = Vec::new();
        proof {
            assert(merged_key_views(self.group_search_results@) =~= Seq::<
                MergedKeyView,
            >::empty());
        }
        match (&self.main_db, fetch) {
            (Option::None, _) => Result::Err(ZdbError::InvalidParameter),
            (Option::Some(DbType::MdxDb(db)), SearchFetch::Single(anchor)) => {
                match anchor {
                    Option::Some(a) => Result::Ok(
                        Option::Some((a.key_index.entry_no, db.entry_count as usize)),
                    ),
                    Option::None => Result::Ok(Option::None),
                }
            },
            (Option::Some(DbType::MdxDbGroup(g)), SearchFetch::Group(batches)) => {
                proof {
                    lemma_db_views(g.mdx_dbs@);
                }
                let results = g.find_best_match_indexes(query, max_results_per_lib, &batches);
                proof {
                    lemma_merged_key_views(results@);
                }
                let n = results.len();
                self.group_search_results = results;
                if n == 0 {
                    Result::Ok(Option::None)
                } else {
                    Result::Ok(Option::Some((0, n)))
                }
            },
            _ => {
                proof {
                    assert(false);
                }
                Result::Err(ZdbError::InvalidParameter)
            },
        }
    }

    /// Full-text search. The previous cache is always replaced. Single
    /// mode turns each fetched result into its own cache row in
    /// relevance order; group mode merges the fetched per-dictionary
    /// result lists by normalized key. Returns the new cache length, or
    /// invalid-parameter when no database is open.
    pub fn fulltext_search(
        &mut self,
        query: &str,
        max_results_per_lib: usize,
        fetch: FulltextFetch,
    ) -> (r: Result<usize, ZdbError>)
        requires
            old(self).wf(),
            match old(self)@.main_db {
                Option::Some(DbTypeView::Single(_)) => fetch is Single,
                Option::Some(DbTypeView::Group(g)) => fetch matches FulltextFetch::Group(b)
                    && b@.len() == g.dbs.len(),
                Option::None => true,
            },
        ensures
            same_settings(final(self)@, old(self)@),
            final(self)@.main_db == old(self)@.main_db,
            final(self).wf(),
            match old(self)@.main_db {
                Option::None => (r matches Result::Err(e) && e == ZdbError::InvalidParameter)
                    && final(self)@.cache == Seq::<MergedKeyView>::empty(),
                Option::Some(DbTypeView::Single(_)) => match fetch {
                    FulltextFetch::Single(results) => final(self)@.cache == single_ft_rows(
                        index_views(results@),
                    ) && (r matches Result::Ok(n) && n as int == final(self)@.cache.len()),
                    FulltextFetch::Group(_) => true,
                },
                Option::Some(DbTypeView::Group(g)) => match fetch {
                    FulltextFetch::Group(batches) => merge_result_ok(
                        final(self)@.cache,
                        g.profile.children->Some_0,
                        g.dbs,
                        batch_views(batches@),
                        Option::None,
                        Option::None,
                        true,
                    ) && (r matches Result::Ok(n) && n as int == final(self)@.cache.len()),
                    FulltextFetch::Single(_) => true,
                },
            },
    {
        self.group_search_results = Vec::new();
        proof {
            assert(merged_key_views(self.group_search_results@) =~= Seq::<
                MergedKeyView,
            >::empty());
        }
        match (&self.main_db, fetch) {
            (Option::None, _) => Result::Err(ZdbError::InvalidParameter),
            (Option::Some(DbType::MdxDb(_)), FulltextFetch::Single(results)) => {
                proof {
                    lemma_index_views(results@);
                }
                let ghost rsv = index_views(results@);
                let mut rows: Vec<MdxMergedKey> = Vec::new();
                let mut i: usize = 0;
                proof {
                    assert(rsv.take(0) =~= Seq::<IndexView>::empty());
                }
                while i < results.len()
                    invariant
                        i <= results@.len(),
                        rsv == index_views(results@),
                        rsv.len() == results@.len(),
                        forall|x: int| 0 <= x < results@.len() ==> rsv[x] == results@[x]@,
                        merged_key_views(rows@) == single_ft_rows(rsv.take(i as int)),
                    decreases results@.len() - i,
                {
                    proof {
                        assert(rsv.take(i + 1).drop_last() =~= rsv.take(i as int));
                        assert(rsv.take(i + 1).last() == rsv[i as int]);
                    }
                    let rec = &results[i];
                    let nk = MdxDb::normalize_keyword(rec.key_index.key.as_str());
                    let mut indexes: Vec<MdxIndex> = Vec::new();
                    indexes.push(rec.clone());
                    proof {
                        assert(indexes@.len() == 1);
                        assert(indexes@[0]@ == rsv[i as int]);
                        lemma_index_views(indexes@);
                        assert(index_views(indexes@) =~= seq![rsv[i as int]]);
                    }
                    let gi = MdxGroupIndex {
                        profile_id: rec.profile_id,
                        primary_key: rec.key_index.key.clone(),
                        indexes,
                    };
                    let ghost giv = gi@;
                    proof {
                        assert(giv =~~= (GroupIndexView {
                            profile_id: rsv[i as int].profile_id,
                            primary_key: rsv[i as int].key,
                            indexes: seq![rsv[i as int]],
                        }));
                    }
                    let mut group_indexes: Vec<MdxGroupIndex> = Vec::new();
                    group_indexes.push(gi);
                    proof {
                        assert(group_indexes@.len() == 1);
                        lemma_group_index_views(group_indexes@);
                        assert(group_index_views(group_indexes@) =~= seq![giv]);
                    }
                    let row = MdxMergedKey {
                        normalized_key: nk,
                        display_key: rec.key_index.key.clone(),
                        group_indexes,
                    };
                    let ghost rowv = row@;
                    let ghost rows0 = rows@;
                    proof {
                        assert(rowv =~~= single_ft_rows(rsv.take(i + 1)).last());
                    }
                    rows.push(row);
                    proof {
                        assert(rows@.drop_last() =~= rows0);
                        assert(merged_key_views(rows@) =~= single_ft_rows(rsv.take(i + 1)));
                    }
                    i = i + 1;
                }
                proof {
                    assert(rsv.take(rsv.len() as int) =~= rsv);
                    lemma_merged_key_views(rows@);
                }
                let n = rows.len();
                self.group_search_results = rows;
                Result::Ok(n)
            },
            (Option::Some(DbType::MdxDbGroup(g)), FulltextFetch::Group(batches)) => {
                proof {
                    lemma_db_views(g.mdx_dbs@);
                }
                let results = g.fulltext_find(query, max_results_per_lib, &batches);
                proof {
                    lemma_merged_key_views(results@);
                }
                let n = results.len();
                self.group_search_results = results;
                Result::Ok(n)
            },
            _ => {
                proof {
                    assert(false);
                }
                Result::Err(ZdbError::InvalidParameter)
            },
        }
    }
}


impl MdictApp {
    /// Exact lookup of a key. Single mode wraps the fetched record into
    /// one group; group mode keeps each dictionary's found record as its
    /// own singleton group, ordered by the group's profile order. With no
    /// database open the result is empty, not an error. The cache is not
    /// touched.
    pub fn find_index(&self, key: &str, fetch: FindFetch) -> (r: Result<
        Vec<MdxGroupIndex>,
        ZdbError,
    >)
        requires
            self.wf(),
            match self@.main_db {
                Option::Some(DbTypeView::Single(_)) => fetch is Single,
                Option::Some(DbTypeView::Group(g)) => fetch matches FindFetch::Group(f) && f@.len()
                    == g.dbs.len(),
                Option::None => true,
            },
        ensures
            r is Ok,
            match self@.main_db {
                Option::None => group_index_views(r->Ok_0@) == Seq::<GroupIndexView>::empty(),
                Option::Some(DbTypeView::Single(db)) => match fetch {
                    FindFetch::Single(found) => group_index_views(r->Ok_0@) == (match found {
                        Option::Some(f) => seq![
                            GroupIndexView {
                                profile_id: db.profile.profile_id,
                                primary_key: key@,
                                indexes: seq![f@],
                            },
                        ],
                        Option::None => Seq::<GroupIndexView>::empty(),
                    }),
                    FindFetch::Group(_) => true,
                },
                Option::Some(DbTypeView::Group(g)) => match fetch {
                    FindFetch::Group(founds) => group_index_views(r->Ok_0@) == find_groups(
                        g.profile.children->Some_0,
                        g.dbs,
                        opt_index_views(founds@),
                        key@,
                    ),
                    FindFetch::Single(_) => true,
                },
            },
    {
        let mut out: Vec<MdxGroupIndex> = Vec::new();
        match (&self.main_db, fetch) {
            (Option::None, _) => Result::Ok(out),
            (Option::Some(DbType::MdxDb(db)), FindFetch::Single(found)) => {
                match found {
                    Option::Some(f) => {
                        let ghost fv = f@;
                        let mut indexes: Vec<MdxIndex> = Vec::new();
                        indexes.push(f);
                        proof {
                            lemma_index_views(indexes@);
                            assert(index_views(indexes@) =~= seq![fv]);
                        }
                        let gi = MdxGroupIndex {
                            profile_id: db.profile.profile_id,
                            primary_key: String::from_str(key),
                            indexes,
                        };
                        let ghost giv = gi@;
                        out.push(gi);
                        proof {
                            lemma_group_index_views(out@);
                            assert(group_index_views(out@) =~= seq![giv]);
                            assert(giv =~~= (GroupIndexView {
                                profile_id: db@.profile.profile_id,
                                primary_key: key@,
                                indexes: seq![fv],
                            }));
                        }
                        Result::Ok(out)
                    },
                    Option::None => Result::Ok(out),
                }
            },
            (Option::Some(DbType::MdxDbGroup(g)), FindFetch::Group(founds)) => {
                let ghost dbsv = db_views(g.mdx_dbs@);
                let ghost fsv = opt_index_views(founds@);
                proof {
                    lemma_db_views(g.mdx_dbs@);
                    lemma_opt_index_views(founds@);
                }
                let children: &Vec<MdxProfile> = match g.profile.get_profiles() {
                    Option::Some(v) => v,
                    Option::None => {
                        proof {
                            assert(false);
                        }
                        unreached()
                    },
                };
                proof {
                    crate::mdx_profile::lemma_views_of_vec(children@);
                }
                let ghost csv = crate::mdx_profile::views_of_vec(children@);
                let mut ci: usize = 0;
                proof {
                    assert(csv.take(0) =~= Seq::<ProfileView>::empty());
                }
                while ci < children.len()
                    invariant
                        ci <= children@.len(),
                        csv == crate::mdx_profile::views_of_vec(children@),
                        csv.len() == children@.len(),
                        forall|x: int| 0 <= x < children@.len() ==> csv[x] == profile_view(
                            children@[x],
                        ),
                        dbsv == db_views(g.mdx_dbs@),
                        dbsv.len() == g.mdx_dbs@.len(),
                        forall|x: int| 0 <= x < g.mdx_dbs@.len() ==> dbsv[x] == g.mdx_dbs@[x]@,
                        fsv == opt_index_views(founds@),
                        fsv.len() == founds@.len(),
                        founds@.len() == g.mdx_dbs@.len(),
                        forall|x: int|
                            0 <= x < founds@.len() ==> fsv[x] == (match founds@[x] {
                                Option::Some(rr) => Option::Some(rr@),
                                Option::None => Option::None,
                            }),
                        group_index_views(out@) == find_groups(
                            csv.take(ci as int),
                            dbsv,
                            fsv,
                            key@,
                        ),
                    decreases children@.len() - ci,
                {
                    proof {
                        assert(csv.take(ci + 1).drop_last() =~= csv.take(ci as int));
                        assert(csv.take(ci + 1).last() == csv[ci as int]);
                    }
                    let pid = children[ci].profile_id;
                    let mut dj: usize = 0;
                    let mut found_db = false;
                    let mut dbi: usize = 0;
                    while dj < g.mdx_dbs.len()
                        invariant
                            dj <= g.mdx_dbs@.len(),
                            dbsv.len() == g.mdx_dbs@.len(),
                            forall|x: int| 0 <= x < g.mdx_dbs@.len() ==> dbsv[x] == g.mdx_dbs@[
                                x]@,
                            found_db ==> dbi < g.mdx_dbs@.len() && dbsv[
                                dbi as int].profile.profile_id == pid as int && forall|x: int|
                                0 <= x < dbi ==> dbsv[x].profile.profile_id != pid as int,
                            !found_db ==> forall|x: int|
                                0 <= x < dj ==> dbsv[x].profile.profile_id != pid as int,
                        decreases g.mdx_dbs@.len() - dj,
                    {
                        if !found_db && g.mdx_dbs[dj].profile.profile_id == pid {
                            found_db = true;
                            dbi = dj;
                        }
                        dj = dj + 1;
                    }
                    let ghost out0 = out@;
                    if found_db {
                        proof {
                            lemma_db_index_witness(dbsv, pid as int, dbi as int);
                        }
                        match &founds[dbi] {
                            Option::Some(f) => {
                                let ghost fv = f@;
                                let mut indexes: Vec<MdxIndex> = Vec::new();
                                indexes.push(f.clone());
                                proof {
                                    lemma_index_views(indexes@);
                                    assert(index_views(indexes@) =~= seq![fv]);
                                }
                                let gi = MdxGroupIndex {
                                    profile_id: f.profile_id,
                                    primary_key: String::from_str(key),
                                    indexes,
                                };
                                let ghost giv = gi@;
                                out.push(gi);
                                proof {
                                    assert(out@.drop_last() =~= out0);
                                    assert(giv =~~= (GroupIndexView {
                                        profile_id: fv.profile_id,
                                        primary_key: key@,
                                        indexes: seq![fv],
                                    }));
                                    assert(group_index_views(out@) =~= find_groups(
                                        csv.take(ci + 1),
                                        dbsv,
                                        fsv,
                                        key@,
                                    ));
                                }
                            },
                            Option::None => {
                                proof {
                                    assert(group_index_views(out@) =~= find_groups(
                                        csv.take(ci + 1),
                                        dbsv,
                                        fsv,
                                        key@,
                                    ));
                                }
                            },
                        }
                    } else {
                        proof {
                            lemma_db_index_none(dbsv, pid as int);
                            assert(group_index_views(out@) =~= find_groups(
                                csv.take(ci + 1),
                                dbsv,
                                fsv,
                                key@,
                            ));
                        }
                    }
                    ci = ci + 1;
                }
                proof {
                    assert(csv.take(csv.len() as int) =~= csv);
                }
                Result::Ok(out)
            },
            _ => {
                proof {
                    assert(false);
                }
                Result::Ok(out)
            },
        }
    }

    /// Pages ordered `(display key, contributing-dictionary count)` pairs.
    /// A populated cache is paged regardless of mode; without one, single
    /// mode maps the records the caller fetched, and group mode returns
    /// an empty page by design. Fails with invalid-parameter when no
    /// database is open, or when the start position is outside a
    /// populated cache.
    pub fn get_result_key_list(
        &self,
        start_index: usize,
        max_count: usize,
        fetched: Vec<MdxIndex>,
    ) -> (r: Result<Vec<(String, usize)>, ZdbError>)
        ensures
            ({
                let cache = self@.cache;
                if cache.len() > 0 {
                    if start_index >= cache.len() {
                        r matches Result::Err(e) && e == ZdbError::InvalidParameter
                    } else {
                        let avail = cache.len() - start_index;
                        let want: int = if max_count == 0 {
                            1int
                        } else {
                            max_count as int
                        };
                        let count: int = if avail < want {
                            avail as int
                        } else {
                            want
                        };
                        r matches Result::Ok(rows) && rows@.len() == count && forall|x: int|
                            0 <= x < count ==> ((#[trigger] rows@[x]).0@ == result_key_entry(
                                cache,
                                start_index + x,
                            ).0 && rows@[x].1 as int == result_key_entry(cache, start_index + x).1)
                    }
                } else {
                    match self@.main_db {
                        Option::None => r matches Result::Err(e) && e
                            == ZdbError::InvalidParameter,
                        Option::Some(DbTypeView::Single(_)) => r matches Result::Ok(rows)
                            && rows@.len() == fetched@.len() && forall|x: int|
                            0 <= x < fetched@.len() ==> ((#[trigger] rows@[x]).0@ == index_views(
                                fetched@,
                            )[x].key && rows@[x].1 == 1usize),
                        Option::Some(DbTypeView::Group(_)) => r matches Result::Ok(rows)
                            && rows@.len() == 0,
                    }
                }
            }),
    {
        proof {
            lemma_merged_key_views(self.group_search_results@);
        }
        let cache_len = self.group_search_results.len();
        if cache_len > 0 {
            if start_index >= cache_len {
                return Result::Err(ZdbError::InvalidParameter);
            }
            let avail = cache_len - start_index;
            let want = if max_count == 0 {
                1
            } else {
                max_count
            };
            let count = if avail < want {
                avail
            } else {
                want
            };
            let mut rows: Vec<(String, usize)> = Vec::new();
            let mut j: usize = 0;
            while j < count
                invariant
                    j <= count,
                    count <= avail,
                    avail == cache_len - start_index,
                    start_index < cache_len,
                    cache_len == self.group_search_results@.len(),
                    self@.cache == merged_key_views(self.group_search_results@),
                    self@.cache.len() == cache_len,
                    forall|x: int| 0 <= x < cache_len ==> self@.cache[x]
                        == self.group_search_results@[x]@,
                    rows@.len() == j,
                    forall|x: int|
                        0 <= x < j ==> ((#[trigger] rows@[x]).0@ == self@.cache[start_index
                            + x].display_key && rows@[x].1 as int == self@.cache[start_index
                            + x].groups.len()),
                decreases count - j,
            {
                let entry = &self.group_search_results[start_index + j];
                proof {
                    lemma_group_index_views(entry.group_indexes@);
                }
                rows.push((entry.display_key.clone(), entry.group_indexes.len()));
                j = j + 1;
            }
            Result::Ok(rows)
        } else {
            match &self.main_db {
                Option::None => Result::Err(ZdbError::InvalidParameter),
                Option::Some(DbType::MdxDb(_)) => {
                    proof {
                        lemma_index_views(fetched@);
                    }
                    let mut rows: Vec<(String, usize)> = Vec::new();
                    let mut j: usize = 0;
                    while j < fetched.len()
                        invariant
                            j <= fetched@.len(),
                            rows@.len() == j,
                            forall|x: int|
                                0 <= x < j ==> ((#[trigger] rows@[x]).0@ == fetched@[x]@.key
                                    && rows@[x].1 == 1usize),
                        decreases fetched@.len() - j,
                    {
                        rows.push((fetched[j].key_index.key.clone(), 1));
                        j = j + 1;
                    }
                    proof {
                        assert forall|x: int| 0 <= x < fetched@.len() implies index_views(
                            fetched@,
                        )[x].key == fetched@[x]@.key by {}
                    }
                    Result::Ok(rows)
                },
                Option::Some(DbType::MdxDbGroup(_)) => Result::Ok(Vec::new()),
            }
        }
    }

    /// The full per-dictionary breakdown for one result position. A
    /// populated cache answers regardless of mode; without one, single
    /// mode wraps the record the caller fetched for that entry number,
    /// and group mode fails with invalid-parameter, as does an
    /// out-of-range position or a closed session.
    pub fn get_group_indexes(&self, index_no: usize, fetched: Option<MdxIndex>) -> (r: Result<
        Vec<MdxGroupIndex>,
        ZdbError,
    >)
        requires
            (self@.cache.len() == 0 && (match self@.main_db {
                Option::Some(DbTypeView::Single(db)) => index_no < db.entry_count,
                _ => false,
            })) ==> fetched is Some,
        ensures
            ({
                let cache = self@.cache;
                if cache.len() > 0 {
                    if index_no >= cache.len() {
                        r matches Result::Err(e) && e == ZdbError::InvalidParameter
                    } else {
                        r matches Result::Ok(g) && group_index_views(g@) == group_indexes_at(
                            cache,
                            index_no as int,
                        )
                    }
                } else {
                    match self@.main_db {
                        Option::None => r matches Result::Err(e) && e
                            == ZdbError::InvalidParameter,
                        Option::Some(DbTypeView::Single(db)) => if index_no >= db.entry_count {
                            r matches Result::Err(e) && e == ZdbError::InvalidParameter
                        } else {
                            r matches Result::Ok(g) && group_index_views(g@) == seq![
                                GroupIndexView {
                                    profile_id: db.profile.profile_id,
                                    primary_key: fetched->Some_0@.key,
                                    indexes: seq![fetched->Some_0@],
                                },
                            ]
                        },
                        Option::Some(DbTypeView::Group(_)) => r matches Result::Err(e) && e
                            == ZdbError::InvalidParameter,
                    }
                }
            }),
    {
        proof {
            lemma_merged_key_views(self.group_search_results@);
        }
        let cache_len = self.group_search_results.len();
        if cache_len > 0 {
            if index_no >= cache_len {
                return Result::Err(ZdbError::InvalidParameter);
            }
            let entry = &self.group_search_results[index_no];
            let mut g: Vec<MdxGroupIndex> = Vec::new();
            let mut j: usize = 0;
            while j < entry.group_indexes.len()
                invariant
                    j <= entry.group_indexes@.len(),
                    g@.len() == j,
                    forall|x: int| 0 <= x < j ==> (#[trigger] g@[x])@ == entry.group_indexes@[
                        x]@,
                decreases entry.group_indexes@.len() - j,
            {
                g.push(entry.group_indexes[j].clone());
                j = j + 1;
            }
            proof {
                lemma_group_index_views(g@);
                lemma_group_index_views(entry.group_indexes@);
                assert(group_index_views(g@) =~= group_index_views(entry.group_indexes@));
                assert(self@.cache[index_no as int] == entry@);
            }
            Result::Ok(g)
        } else {
            match &self.main_db {
                Option::None => Result::Err(ZdbError::InvalidParameter),
                Option::Some(DbType::MdxDb(db)) => {
                    if (index_no as u64) >= db.entry_count {
                        return Result::Err(ZdbError::InvalidParameter);
                    }
                    let f = match fetched {
                        Option::Some(f) => f,
                        Option::None => {
                            proof {
                                assert(false);
                            }
                            unreached()
                        },
                    };
                    let ghost fv = f@;
                    let mut indexes: Vec<MdxIndex> = Vec::new();
                    let primary_key = f.key_index.key.clone();
                    indexes.push(f);
                    proof {
                        lemma_index_views(indexes@);
                        assert(index_views(indexes@) =~= seq![fv]);
                    }
                    let gi = MdxGroupIndex { profile_id: db.profile.profile_id, primary_key, indexes };
                    let ghost giv = gi@;
                    let mut out: Vec<MdxGroupIndex> = Vec::new();
                    out.push(gi);
                    proof {
                        lemma_group_index_views(out@);
                        assert(group_index_views(out@) =~= seq![giv]);
                        assert(giv =~~= (GroupIndexView {
                            profile_id: db@.profile.profile_id,
                            primary_key: fv.key,
                            indexes: seq![fv],
                        }));
                    }
                    Result::Ok(out)
                },
                Option::Some(DbType::MdxDbGroup(_)) => Result::Err(ZdbError::InvalidParameter),
            }
        }
    }

    /// The total result count: the cache length after a search, the
    /// dictionary's entry count in single mode, or zero in group mode
    /// before any search. Fails with invalid-parameter when no database
    /// is open.
    pub fn get_entry_count(&self) -> (r: Result<usize, ZdbError>)
        ensures
            if self@.cache.len() > 0 {
                r matches Result::Ok(n) && n as int == self@.cache.len()
            } else {
                match self@.main_db {
                    Option::None => r matches Result::Err(e) && e == ZdbError::InvalidParameter,
                    Option::Some(DbTypeView::Single(db)) => r matches Result::Ok(n) && n == (
                    db.entry_count as usize),
                    Option::Some(DbTypeView::Group(_)) => r matches Result::Ok(n) && n == 0usize,
                }
            },
    {
        proof {
            lemma_merged_key_views(self.group_search_results@);
        }
        if self.group_search_results.len() > 0 {
            return Result::Ok(self.group_search_results.len());
        }
        match &self.main_db {
            Option::None => Result::Err(ZdbError::InvalidParameter),
            Option::Some(DbType::MdxDb(db)) => Result::Ok(db.entry_count as usize),
            Option::Some(DbType::MdxDbGroup(_)) => Result::Ok(0),
        }
    }

    /// The profile id of the open main database, or the invalid-id
    /// sentinel when none is open.
    pub fn get_current_main_profile_id(&self) -> (r: Result<ProfileId, ZdbError>)
        ensures
            r matches Result::Ok(id) && id as int == (match self@.main_db {
                Option::Some(DbTypeView::Single(db)) => db.profile.profile_id,
                Option::Some(DbTypeView::Group(g)) => g.profile.profile_id,
                Option::None => INVALID_PROFILE_ID as int,
            }),
    {
        match &self.main_db {
            Option::Some(DbType::MdxDb(db)) => Result::Ok(db.profile.profile_id),
            Option::Some(DbType::MdxDbGroup(g)) => Result::Ok(g.profile.profile_id),
            Option::None => Result::Ok(INVALID_PROFILE_ID),
        }
    }

    /// A copy of the open main database's profile, if one is open.
    pub fn get_current_main_profile(&self) -> (r: Result<Option<MdxProfile>, ZdbError>)
        ensures
            r is Ok,
            match self@.main_db {
                Option::Some(DbTypeView::Single(db)) => r->Ok_0 matches Option::Some(p) && p@
                    == db.profile,
                Option::Some(DbTypeView::Group(g)) => r->Ok_0 matches Option::Some(p) && p@
                    == g.profile,
                Option::None => r->Ok_0 is None,
            },
    {
        match &self.main_db {
            Option::Some(DbType::MdxDb(db)) => Result::Ok(Option::Some(db.profile.clone())),
            Option::Some(DbType::MdxDbGroup(g)) => Result::Ok(Option::Some(g.profile.clone())),
            Option::None => Result::Ok(Option::None),
        }
    }

    /// The base url merged results are rendered under.
    pub fn get_base_url(&self) -> (r: &str)
        ensures
            r@ == self@.base_url,
    {
        self.base_url.as_str()
    }

    /// Replaces the base url.
    pub fn set_base_url(&mut self, base_url: String) -> (r: Result<(), ZdbError>)
        ensures
            r is Ok,
            final(self)@ == (AppView { base_url: base_url@, ..old(self)@ }),
    {
        self.base_url = base_url;
        proof {
            assert(self@ =~~= (AppView { base_url: self.base_url@, ..old(self)@ }));
        }
        Result::Ok(())
    }

    /// The configured library search paths.
    pub fn get_lib_search_paths(&self) -> (r: &Vec<String>)
        ensures
            r@.map_values(|s: String| s@) == self@.lib_search_paths,
    {
        &self.lib_search_paths
    }

    /// Appends a library search path.
    pub fn add_lib_search_path(&mut self, path: String) -> (r: Result<(), ZdbError>)
        ensures
            r is Ok,
            final(self)@ == (AppView {
                lib_search_paths: old(self)@.lib_search_paths.push(path@),
                ..old(self)@
            }),
    {
        let ghost pv = path@;
        self.lib_search_paths.push(path);
        proof {
            assert(self.lib_search_paths@.map_values(|s: String| s@) =~= old(
                self,
            ).lib_search_paths@.map_values(|s: String| s@).push(pv));
            assert(self@ =~~= (AppView {
                lib_search_paths: old(self)@.lib_search_paths.push(pv),
                ..old(self)@
            }));
        }
        Result::Ok(())
    }

    /// Clears the library search paths.
    pub fn clear_lib_search_paths(&mut self) -> (r: Result<(), ZdbError>)
        ensures
            r is Ok,
            final(self)@ == (AppView {
                lib_search_paths: Seq::<Seq<char>>::empty(),
                ..old(self)@
            }),
    {
        self.lib_search_paths.clear();
        proof {
            assert(self.lib_search_paths@.map_values(|s: String| s@) =~= Seq::<
                Seq<char>,
            >::empty());
            assert(self@ =~~= (AppView {
                lib_search_paths: Seq::<Seq<char>>::empty(),
                ..old(self)@
            }));
        }
        Result::Ok(())
    }
}

} // verus!
