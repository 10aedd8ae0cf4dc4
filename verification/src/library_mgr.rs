//! The persisted catalog of profile groups: CRUD, reordering, and the
//! directory-rescan merge that keeps leaf ids stable across scans.

use vstd::prelude::*;
use crate::codec::catalog_from_json;
use crate::codec::catalog_to_json;
use crate::codec::enc_profiles;
use crate::codec::ids_ok_l;
use crate::codec::lemma_catalog_round_trip;
use crate::codec::parse_catalog;
use crate::error::ZdbError;
use crate::mdx_profile::DEFAULT_GROUP_ID;
use crate::mdx_profile::INVALID_PROFILE_ID;
use crate::mdx_profile::MdxOptions;
use crate::mdx_profile::MdxProfile;
use crate::mdx_profile::ProfileId;
use crate::mdx_profile::ProfileView;
use crate::mdx_profile::find_by_id;
use crate::mdx_profile::find_index_by_id;
use crate::mdx_profile::last_by_id;
use crate::mdx_profile::lemma_contained_ids_le_max;
use crate::mdx_profile::lemma_find_index_none;
use crate::mdx_profile::lemma_find_index_witness;
use crate::mdx_profile::lemma_views_of_vec;
use crate::mdx_profile::profile_view;
use crate::mdx_profile::remove_id_spec;
use crate::mdx_profile::reorder_spec;
use crate::mdx_profile::views_contain_id;
use crate::mdx_profile::views_max_id;
use crate::mdx_profile::views_of_vec;
use crate::mdx_profile::view_max_id;
use crate::text::decoded_stem_of;
use crate::text::str_eq;

verus! {

broadcast use vstd::std_specs::vec::group_vec_axioms;

/// The catalog manager: an ordered list of top-level groups, the options
/// that freshly scanned leaves inherit, and the path the catalog is
/// persisted under.
pub struct LibraryManager {
    pub(crate) mdx_groups: Vec<MdxProfile>,
    pub(crate) default_mdx_options: MdxOptions,
    pub(crate) library_file_path: String,
}

/// Ghost projection of the whole catalog.
#[verifier::ext_equal]
pub ghost struct LibraryView {
    pub groups: Seq<ProfileView>,
    pub default_font: Seq<char>,
    pub file_path: Seq<char>,
}

impl View for LibraryManager {
    type V = LibraryView;

    closed spec fn view(&self) -> LibraryView {
        LibraryView {
            groups: views_of_vec(self.mdx_groups@),
            default_font: self.default_mdx_options.font_file_path@,
            file_path: self.library_file_path@,
        }
    }
}

/// Resolution of an id: first the top-level groups, then the children of
/// the default group.
pub open spec fn find_profile_spec(gs: Seq<ProfileView>, id: int) -> Option<ProfileView> {
    match find_index_by_id(gs, id) {
        Option::Some(i) => Option::Some(gs[i]),
        Option::None => match find_index_by_id(gs, DEFAULT_GROUP_ID as int) {
            Option::Some(d) => match gs[d].children {
                Option::Some(cs) => find_by_id(cs, id),
                Option::None => Option::None,
            },
            Option::None => Option::None,
        },
    }
}

/// Resolution of an id to a group: `find_profile_spec` filtered to nodes
/// that have a child list.
pub open spec fn get_group_spec(gs: Seq<ProfileView>, id: int) -> Option<ProfileView> {
    match find_profile_spec(gs, id) {
        Option::Some(p) => if p.children is Some {
            Option::Some(p)
        } else {
            Option::None
        },
        Option::None => Option::None,
    }
}

/// Replacement at the top level: the first group sharing the profile's id
/// is overwritten, else the profile is appended unchanged.
pub open spec fn replace_top_spec(gs: Seq<ProfileView>, new: ProfileView) -> Seq<ProfileView> {
    match find_index_by_id(gs, new.profile_id) {
        Option::Some(i) => gs.update(i, new),
        Option::None => gs.push(new),
    }
}

/// Whether `id` is the id of a direct child of `g`.
pub open spec fn has_direct_child(g: ProfileView, id: int) -> bool {
    match g.children {
        Option::Some(cs) => find_index_by_id(cs, id) is Some,
        Option::None => false,
    }
}

/// `g` with every direct child of id `id` removed.
pub open spec fn drop_direct_child(g: ProfileView, id: int) -> ProfileView {
    ProfileView {
        children: Option::Some(
            match g.children {
                Option::Some(cs) => remove_id_spec(cs, id),
                Option::None => Seq::empty(),
            },
        ),
        ..g
    }
}

/// Removal of `id` from the children of the first group that holds it.
pub open spec fn remove_in_groups_spec(gs: Seq<ProfileView>, id: int) -> (Seq<ProfileView>, bool)
    decreases gs.len(),
{
    if gs.len() == 0 {
        (gs, false)
    } else if has_direct_child(gs[0], id) {
        (seq![drop_direct_child(gs[0], id)] + gs.drop_first(), true)
    } else {
        let r = remove_in_groups_spec(gs.drop_first(), id);
        (seq![gs[0]] + r.0, r.1)
    }
}

/// What `remove_profile` does: remove every top-level node with the id, or
/// else remove the id from the first group that holds it as a direct child.
pub open spec fn remove_profile_spec(gs: Seq<ProfileView>, id: int) -> (Seq<ProfileView>, bool) {
    if find_index_by_id(gs, id) is Some {
        (remove_id_spec(gs, id), true)
    } else {
        remove_in_groups_spec(gs, id)
    }
}

/// When no group holds the id, `remove_in_groups_spec` changes nothing.
pub proof fn lemma_remove_in_groups_none(gs: Seq<ProfileView>, id: int)
    requires
        forall|k: int| 0 <= k < gs.len() ==> !has_direct_child(gs[k], id),
    ensures
        remove_in_groups_spec(gs, id) == (gs, false),
    decreases gs.len(),
{
    if gs.len() > 0 {
        assert forall|k: int| 0 <= k < gs.len() - 1 implies !has_direct_child(
            gs.drop_first()[k],
            id,
        ) by {
            assert(gs.drop_first()[k] == gs[k + 1]);
        }
        lemma_remove_in_groups_none(gs.drop_first(), id);
        assert(seq![gs[0]] + gs.drop_first() =~= gs);
    }
}

/// A first group holding the id determines `remove_in_groups_spec`.
pub proof fn lemma_remove_in_groups_witness(gs: Seq<ProfileView>, id: int, i: int)
    requires
        0 <= i < gs.len(),
        has_direct_child(gs[i], id),
        forall|k: int| 0 <= k < i ==> !has_direct_child(gs[k], id),
    ensures
        remove_in_groups_spec(gs, id) == (gs.update(i, drop_direct_child(gs[i], id)), true),
    decreases gs.len(),
{
    if i == 0 {
        assert(seq![drop_direct_child(gs[0], id)] + gs.drop_first() =~= gs.update(
            0,
            drop_direct_child(gs[0], id),
        ));
    } else {
        assert(!has_direct_child(gs[0], id));
        assert(gs.drop_first()[i - 1] == gs[i]);
        assert forall|k: int| 0 <= k < i - 1 implies !has_direct_child(gs.drop_first()[k], id) by {
            assert(gs.drop_first()[k] == gs[k + 1]);
        }
        lemma_remove_in_groups_witness(gs.drop_first(), id, i - 1);
        assert(seq![gs[0]] + gs.drop_first().update(i - 1, drop_direct_child(gs[i], id))
            =~= gs.update(i, drop_direct_child(gs[i], id)));
    }
}

impl LibraryManager {
    /// Creates a catalog holding only the default "all databases" group.
    pub fn new() -> (r: Self)
        ensures
            r@.groups =~= seq![default_group_view()],
            r@.default_font == Seq::<char>::empty(),
            r@.file_path == Seq::<char>::empty(),
    {
        let mut manager = LibraryManager {
            mdx_groups: Vec::new(),
            default_mdx_options: MdxOptions::default(),
            library_file_path: String::new(),
        };
        manager.ensure_default_group();
        manager
    }

    /// Adds the default group when no group with its id exists.
    fn ensure_default_group(&mut self)
        ensures
            final(self)@ == (LibraryView {
                groups: if get_group_spec(old(self)@.groups, DEFAULT_GROUP_ID as int) is Some {
                    old(self)@.groups
                } else {
                    old(self)@.groups.push(default_group_view())
                },
                ..old(self)@
            }),
    {
        let absent = self.get_group(DEFAULT_GROUP_ID).is_none();
        if absent {
            let root_group = MdxProfile::new_group(String::from_str("All databases"), DEFAULT_GROUP_ID);
            let ghost gv = root_group@;
            let ghost gs0 = self@.groups;
            self.mdx_groups.push(root_group);
            proof {
                assert(self.mdx_groups@.drop_last() =~= old(self).mdx_groups@);
                assert(views_of_vec(self.mdx_groups@) =~= gs0.push(gv));
                assert(gv =~~= default_group_view());
                assert(self@ =~~= (LibraryView {
                    groups: old(self)@.groups.push(default_group_view()),
                    ..old(self)@
                }));
            }
        }
    }

    /// Finds a profile by id: top-level groups first, then the children of
    /// the default group.
    pub fn find_profile(&self, profile_id: ProfileId) -> (r: Option<&MdxProfile>)
        ensures
            match r {
                Option::Some(p) => find_profile_spec(self@.groups, profile_id as int)
                    == Option::Some(p@),
                Option::None => find_profile_spec(self@.groups, profile_id as int) is None,
            },
    {
        proof {
            lemma_views_of_vec(self.mdx_groups@);
        }
        let ghost gs = self@.groups;
        let n = self.mdx_groups.len();
        let mut i: usize = 0;
        while i < n
            invariant
                i <= n,
                n == self.mdx_groups@.len(),
                gs == views_of_vec(self.mdx_groups@),
                gs.len() == n,
                forall|k: int| 0 <= k < n ==> gs[k] == profile_view(self.mdx_groups@[k]),
                forall|k: int| 0 <= k < i ==> gs[k].profile_id != profile_id as int,
            decreases n - i,
        {
            if self.mdx_groups[i].profile_id == profile_id {
                proof {
                    lemma_find_index_witness(gs, profile_id as int, i as int);
                }
                return Option::Some(&self.mdx_groups[i]);
            }
            i = i + 1;
        }
        proof {
            lemma_find_index_none(gs, profile_id as int);
        }
        let mut d: usize = 0;
        while d < n
            invariant
                d <= n,
                n == self.mdx_groups@.len(),
                gs == views_of_vec(self.mdx_groups@),
                gs.len() == n,
                forall|k: int| 0 <= k < n ==> gs[k] == profile_view(self.mdx_groups@[k]),
                find_index_by_id(gs, profile_id as int) is None,
                forall|k: int| 0 <= k < d ==> gs[k].profile_id != DEFAULT_GROUP_ID as int,
            decreases n - d,
        {
            if self.mdx_groups[d].profile_id == DEFAULT_GROUP_ID {
                proof {
                    lemma_find_index_witness(gs, DEFAULT_GROUP_ID as int, d as int);
                }
                return self.mdx_groups[d].get_profile(profile_id);
            }
            d = d + 1;
        }
        proof {
            lemma_find_index_none(gs, DEFAULT_GROUP_ID as int);
        }
        Option::None
    }

    /// The ordered list of top-level groups.
    pub fn get_groups(&self) -> (r: &Vec<MdxProfile>)
        ensures
            views_of_vec(r@) == self@.groups,
    {
        &self.mdx_groups
    }

    /// Finds a group by id; a leaf under that id resolves to nothing.
    pub fn get_group(&self, group_id: ProfileId) -> (r: Option<&MdxProfile>)
        ensures
            match r {
                Option::Some(p) => get_group_spec(self@.groups, group_id as int) == Option::Some(
                    p@,
                ),
                Option::None => get_group_spec(self@.groups, group_id as int) is None,
            },
    {
        match self.find_profile(group_id) {
            Option::Some(p) => {
                if p.is_group() {
                    Option::Some(p)
                } else {
                    Option::None
                }
            },
            Option::None => Option::None,
        }
    }

    /// Finds a profile inside a given group.
    pub fn get_profile(&self, parent_group_id: ProfileId, profile_id: ProfileId) -> (r: Option<
        &MdxProfile,
    >)
        ensures
            match r {
                Option::Some(p) => match get_group_spec(self@.groups, parent_group_id as int) {
                    Option::Some(g) => g.children matches Option::Some(cs) && find_by_id(
                        cs,
                        profile_id as int,
                    ) == Option::Some(p@),
                    Option::None => false,
                },
                Option::None => match get_group_spec(self@.groups, parent_group_id as int) {
                    Option::Some(g) => g.children matches Option::Some(cs) ==> find_by_id(
                        cs,
                        profile_id as int,
                    ) is None,
                    Option::None => true,
                },
            },
    {
        match self.get_group(parent_group_id) {
            Option::Some(g) => g.get_profile(profile_id),
            Option::None => Option::None,
        }
    }

    /// The greatest id anywhere in the catalog, plus one. Always strictly
    /// greater than every id present in the tree, nested leaves included.
    pub fn get_next_profile_id(&self) -> (r: ProfileId)
        requires
            views_max_id(self@.groups) < i32::MAX as int,
        ensures
            r as int == views_max_id(self@.groups) + 1,
            forall|id: int| views_contain_id(self@.groups, id) ==> id < r as int,
    {
        proof {
            lemma_views_of_vec(self.mdx_groups@);
        }
        let ghost gs = self@.groups;
        let mut m: i32 = 0;
        let mut i: usize = 0;
        proof {
            assert(gs.take(0) =~= Seq::<ProfileView>::empty());
        }
        while i < self.mdx_groups.len()
            invariant
                i <= self.mdx_groups@.len(),
                gs == views_of_vec(self.mdx_groups@),
                gs.len() == self.mdx_groups@.len(),
                forall|k: int| 0 <= k < gs.len() ==> gs[k] == profile_view(self.mdx_groups@[k]),
                m as int == views_max_id(gs.take(i as int)),
            decreases self.mdx_groups@.len() - i,
        {
            proof {
                assert(gs.take(i + 1).drop_last() =~= gs.take(i as int));
                assert(gs.take(i + 1).last() == gs[i as int]);
            }
            let gm = profile_max_id(&self.mdx_groups[i]);
            if gm > m {
                m = gm;
            }
            i = i + 1;
        }
        proof {
            assert(gs.take(gs.len() as int) =~= gs);
            assert forall|id: int| views_contain_id(gs, id) implies id < m + 1 by {
                lemma_contained_ids_le_max(gs, id);
            }
        }
        m + 1
    }
}

/// The index of the first top-level node that has the id and is a group.
pub open spec fn find_index_group(gs: Seq<ProfileView>, id: int) -> Option<int>
    decreases gs.len(),
{
    if gs.len() == 0 {
        Option::None
    } else if gs[0].profile_id == id && gs[0].children is Some {
        Option::Some(0int)
    } else {
        match find_index_group(gs.drop_first(), id) {
            Option::Some(j) => Option::Some(j + 1),
            Option::None => Option::None,
        }
    }
}

/// A first-match witness determines `find_index_group`.
pub proof fn lemma_find_index_group_witness(gs: Seq<ProfileView>, id: int, i: int)
    requires
        0 <= i < gs.len(),
        gs[i].profile_id == id && gs[i].children is Some,
        forall|k: int| 0 <= k < i ==> !(gs[k].profile_id == id && gs[k].children is Some),
    ensures
        find_index_group(gs, id) == Option::Some(i),
    decreases gs.len(),
{
    if gs[0].profile_id == id && gs[0].children is Some {
        assert(i == 0) by {
            if i > 0 {
                assert(!(gs[0].profile_id == id && gs[0].children is Some));
            }
        }
    } else {
        assert(gs.drop_first()[i - 1] == gs[i]);
        assert forall|k: int| 0 <= k < i - 1 implies !(gs.drop_first()[k].profile_id == id
            && gs.drop_first()[k].children is Some) by {
            assert(gs.drop_first()[k] == gs[k + 1]);
        }
        lemma_find_index_group_witness(gs.drop_first(), id, i - 1);
    }
}

/// A full scan without a match refutes `find_index_group`.
pub proof fn lemma_find_index_group_none(gs: Seq<ProfileView>, id: int)
    requires
        forall|k: int| 0 <= k < gs.len() ==> !(gs[k].profile_id == id && gs[k].children is Some),
    ensures
        find_index_group(gs, id) is None,
    decreases gs.len(),
{
    if gs.len() > 0 {
        assert forall|k: int| 0 <= k < gs.len() - 1 implies !(gs.drop_first()[k].profile_id == id
            && gs.drop_first()[k].children is Some) by {
            assert(gs.drop_first()[k] == gs[k + 1]);
        }
        lemma_find_index_group_none(gs.drop_first(), id);
    }
}

/// Every top-level id is bounded by the catalog's maximum id.
pub proof fn lemma_top_id_le_max(gs: Seq<ProfileView>, k: int)
    requires
        0 <= k < gs.len(),
    ensures
        gs[k].profile_id <= views_max_id(gs),
    decreases gs.len(),
{
    if k == gs.len() - 1 {
        assert(gs.last() == gs[k]);
        assert(view_max_id(gs[k]) >= gs[k].profile_id);
        assert(views_max_id(gs) >= view_max_id(gs.last()));
    } else {
        lemma_top_id_le_max(gs.drop_last(), k);
        assert(gs.drop_last()[k] == gs[k]);
        assert(views_max_id(gs) >= views_max_id(gs.drop_last()));
    }
}

impl LibraryManager {
    /// Creates a new group under a fresh id, inheriting the default
    /// options and a copy of the default group's current children, and
    /// appends it to the catalog.
    pub fn create_group(&mut self, title: String) -> (r: MdxProfile)
        requires
            views_max_id(old(self)@.groups) < i32::MAX as int,
        ensures
            r@ == (ProfileView {
                title: title@,
                description: Seq::empty(),
                url: Seq::empty(),
                disabled: false,
                profile_id: views_max_id(old(self)@.groups) + 1,
                font_file_path: old(self)@.default_font,
                children: Option::Some(
                    match get_group_spec(old(self)@.groups, DEFAULT_GROUP_ID as int) {
                        Option::Some(g) => g.children->Some_0,
                        Option::None => Seq::empty(),
                    },
                ),
                as_union: true,
            }),
            final(self)@ == (LibraryView { groups: old(self)@.groups.push(r@), ..old(self)@ }),
    {
        let next_id = self.get_next_profile_id();
        let mut new_group = MdxProfile::new_group(title, next_id);
        new_group.options = self.default_mdx_options.clone();
        let children: Vec<MdxProfile> = match self.get_group(DEFAULT_GROUP_ID) {
            Option::Some(default_group) => {
                match default_group.get_profiles() {
                    Option::Some(ps) => {
                        let mut w: Vec<MdxProfile> = Vec::new();
                        let mut i: usize = 0;
                        while i < ps.len()
                            invariant
                                i <= ps@.len(),
                                w@.len() == i,
                                forall|k: int| 0 <= k < i ==> #[trigger] profile_view(w@[k])
                                    == profile_view(ps@[k]),
                            decreases ps@.len() - i,
                        {
                            w.push(ps[i].clone());
                            i = i + 1;
                        }
                        proof {
                            lemma_views_of_vec(w@);
                            lemma_views_of_vec(ps@);
                            assert(views_of_vec(w@) =~= views_of_vec(ps@));
                        }
                        w
                    },
                    Option::None => Vec::new(),
                }
            },
            Option::None => Vec::new(),
        };
        new_group.profiles = Option::Some(children);
        let ghost gv = new_group@;
        let r = new_group.clone();
        let ghost gs0 = self@.groups;
        self.replace_group_profile(&new_group);
        proof {
            assert forall|k: int| 0 <= k < gs0.len() implies gs0[k].profile_id != gv.profile_id by {
                lemma_top_id_le_max(gs0, k);
            }
            lemma_find_index_none(gs0, gv.profile_id);
            assert(r@ =~~= gv);
        }
        r
    }

    /// Overwrites the first top-level node sharing the profile's id, or
    /// appends the profile when none does.
    pub fn replace_group_profile(&mut self, group_profile: &MdxProfile)
        ensures
            final(self)@ == (LibraryView {
                groups: replace_top_spec(old(self)@.groups, group_profile@),
                ..old(self)@
            }),
    {
        proof {
            lemma_views_of_vec(self.mdx_groups@);
        }
        let ghost gs = self@.groups;
        let mut found = false;
        let mut idx: usize = 0;
        let mut i: usize = 0;
        while i < self.mdx_groups.len()
            invariant
                i <= self.mdx_groups@.len(),
                gs == views_of_vec(self.mdx_groups@),
                gs.len() == self.mdx_groups@.len(),
                forall|k: int| 0 <= k < gs.len() ==> gs[k] == profile_view(self.mdx_groups@[k]),
                found ==> idx < gs.len() && gs[idx as int].profile_id == group_profile@.profile_id
                    && forall|k: int|
                    0 <= k < idx ==> gs[k].profile_id != group_profile@.profile_id,
                !found ==> forall|k: int|
                    0 <= k < i ==> gs[k].profile_id != group_profile@.profile_id,
            decreases self.mdx_groups@.len() - i,
        {
            if !found && self.mdx_groups[i].profile_id == group_profile.profile_id {
                found = true;
                idx = i;
            }
            i = i + 1;
        }
        let c = group_profile.clone();
        let ghost cval = c;
        if found {
            proof {
                lemma_find_index_witness(gs, group_profile@.profile_id, idx as int);
            }
            let ghost v0 = self.mdx_groups@;
            self.mdx_groups.remove(idx);
            self.mdx_groups.insert(idx, c);
            proof {
                assert(self.mdx_groups@ =~= v0.update(idx as int, cval));
                lemma_views_of_vec(self.mdx_groups@);
                assert(views_of_vec(self.mdx_groups@) =~= gs.update(idx as int, group_profile@));
                assert(self@ =~~= (LibraryView {
                    groups: replace_top_spec(old(self)@.groups, group_profile@),
                    ..old(self)@
                }));
            }
        } else {
            proof {
                lemma_find_index_none(gs, group_profile@.profile_id);
            }
            let ghost v0 = self.mdx_groups@;
            self.mdx_groups.push(c);
            proof {
                assert(self.mdx_groups@.drop_last() =~= v0);
                assert(views_of_vec(self.mdx_groups@) =~= gs.push(group_profile@));
                assert(self@ =~~= (LibraryView {
                    groups: replace_top_spec(old(self)@.groups, group_profile@),
                    ..old(self)@
                }));
            }
        }
    }

    /// Removes the profile with the given id: every top-level node with
    /// the id, or else the first direct child with the id inside a group.
    /// Returns whether anything was removed; when nothing was, the catalog
    /// is unchanged.
    pub fn remove_profile(&mut self, profile_id: ProfileId) -> (r: bool)
        ensures
            r == remove_profile_spec(old(self)@.groups, profile_id as int).1,
            final(self)@ == (LibraryView {
                groups: remove_profile_spec(old(self)@.groups, profile_id as int).0,
                ..old(self)@
            }),
            !r ==> final(self)@ == old(self)@,
    {
        proof {
            lemma_views_of_vec(self.mdx_groups@);
        }
        let ghost gs = self@.groups;
        let n = self.mdx_groups.len();
        let mut found = false;
        let mut idx: usize = 0;
        let mut filtered: Vec<MdxProfile> = Vec::new();
        let mut i: usize = 0;
        proof {
            assert(gs.take(0) =~= Seq::<ProfileView>::empty());
        }
        while i < n
            invariant
                i <= n,
                n == self.mdx_groups@.len(),
                gs == views_of_vec(self.mdx_groups@),
                gs.len() == n,
                forall|k: int| 0 <= k < n ==> gs[k] == profile_view(self.mdx_groups@[k]),
                views_of_vec(filtered@) == remove_id_spec(gs.take(i as int), profile_id as int),
                found ==> idx < n && gs[idx as int].profile_id == profile_id as int && forall|
                    k: int,
                |
                    0 <= k < idx ==> gs[k].profile_id != profile_id as int,
                !found ==> forall|k: int| 0 <= k < i ==> gs[k].profile_id != profile_id as int,
            decreases n - i,
        {
            proof {
                assert(gs.take(i + 1).drop_last() =~= gs.take(i as int));
                assert(gs.take(i + 1).last() == gs[i as int]);
            }
            if self.mdx_groups[i].profile_id != profile_id {
                let ghost f0 = filtered@;
                filtered.push(self.mdx_groups[i].clone());
                proof {
                    assert(filtered@.drop_last() =~= f0);
                    assert(views_of_vec(filtered@) =~= remove_id_spec(
                        gs.take(i + 1),
                        profile_id as int,
                    ));
                }
            } else {
                if !found {
                    found = true;
                    idx = i;
                }
            }
            i = i + 1;
        }
        proof {
            assert(gs.take(n as int) =~= gs);
        }
        if found {
            proof {
                lemma_find_index_witness(gs, profile_id as int, idx as int);
            }
            let ghost fv = views_of_vec(filtered@);
            self.mdx_groups = filtered;
            proof {
                assert(self@ =~~= (LibraryView {
                    groups: remove_profile_spec(old(self)@.groups, profile_id as int).0,
                    ..old(self)@
                }));
            }
            return true;
        }
        proof {
            lemma_find_index_none(gs, profile_id as int);
        }
        let mut g_idx: usize = 0;
        while g_idx < n
            invariant
                g_idx <= n,
                n == self.mdx_groups@.len(),
                self@ == old(self)@,
                self.mdx_groups@ == old(self).mdx_groups@,
                gs == views_of_vec(self.mdx_groups@),
                gs.len() == n,
                find_index_by_id(gs, profile_id as int) is None,
                forall|k: int| 0 <= k < n ==> gs[k] == profile_view(self.mdx_groups@[k]),
                forall|k: int| 0 <= k < g_idx ==> !has_direct_child(gs[k], profile_id as int),
            decreases n - g_idx,
        {
            let has = self.mdx_groups[g_idx].get_profile(profile_id).is_some();
            if has {
                let ghost g0 = gs[g_idx as int];
                let mut g = self.mdx_groups.remove(g_idx);
                proof {
                    assert(g@ == gs[g_idx as int]);
                }
                let children: Vec<MdxProfile> = match g.profiles.take() {
                    Option::Some(cs) => cs,
                    Option::None => Vec::new(),
                };
                proof {
                    lemma_views_of_vec(children@);
                }
                let ghost csv = views_of_vec(children@);
                let mut kept: Vec<MdxProfile> = Vec::new();
                let mut j: usize = 0;
                proof {
                    assert(csv.take(0) =~= Seq::<ProfileView>::empty());
                }
                while j < children.len()
                    invariant
                        j <= children@.len(),
                        csv == views_of_vec(children@),
                        csv.len() == children@.len(),
                        forall|k: int| 0 <= k < csv.len() ==> csv[k] == profile_view(
                            children@[k],
                        ),
                        views_of_vec(kept@) == remove_id_spec(
                            csv.take(j as int),
                            profile_id as int,
                        ),
                    decreases children@.len() - j,
                {
                    proof {
                        assert(csv.take(j + 1).drop_last() =~= csv.take(j as int));
                        assert(csv.take(j + 1).last() == csv[j as int]);
                    }
                    if children[j].profile_id != profile_id {
                        let ghost k0 = kept@;
                        kept.push(children[j].clone());
                        proof {
                            assert(kept@.drop_last() =~= k0);
                            assert(views_of_vec(kept@) =~= remove_id_spec(
                                csv.take(j + 1),
                                profile_id as int,
                            ));
                        }
                    }
                    j = j + 1;
                }
                proof {
                    assert(csv.take(csv.len() as int) =~= csv);
                }
                g.profiles = Option::Some(kept);
                proof {
                    assert(views_of_vec(children@) == g0.children->Some_0);
                    assert(g@ =~~= drop_direct_child(g0, profile_id as int));
                }
                let ghost gval = g;
                let ghost before_insert = self.mdx_groups@;
                self.mdx_groups.insert(g_idx, g);
                proof {
                    assert(self.mdx_groups@ =~= old(self).mdx_groups@.update(g_idx as int, gval));
                    lemma_views_of_vec(self.mdx_groups@);
                    lemma_views_of_vec(old(self).mdx_groups@);
                    assert(views_of_vec(self.mdx_groups@) =~= gs.update(
                        g_idx as int,
                        drop_direct_child(g0, profile_id as int),
                    ));
                    lemma_remove_in_groups_witness(gs, profile_id as int, g_idx as int);
                    assert(self@ =~~= (LibraryView {
                        groups: remove_profile_spec(old(self)@.groups, profile_id as int).0,
                        ..old(self)@
                    }));
                }
                return true;
            }
            g_idx = g_idx + 1;
        }
        proof {
            lemma_remove_in_groups_none(gs, profile_id as int);
            assert(self@ =~~= old(self)@);
        }
        false
    }

    /// Removes a group; a synonym for `remove_profile`.
    pub fn remove_group(&mut self, group_id: ProfileId) -> (r: bool)
        ensures
            r == remove_profile_spec(old(self)@.groups, group_id as int).1,
            final(self)@ == (LibraryView {
                groups: remove_profile_spec(old(self)@.groups, group_id as int).0,
                ..old(self)@
            }),
            !r ==> final(self)@ == old(self)@,
    {
        self.remove_profile(group_id)
    }

    /// Moves a profile inside the first top-level group with the given id.
    pub fn adjust_profile_order(
        &mut self,
        parent_group_id: ProfileId,
        profile_id: ProfileId,
        new_index: usize,
    )
        ensures
            match find_index_group(old(self)@.groups, parent_group_id as int) {
                Option::Some(k) => final(self)@ == (LibraryView {
                    groups: old(self)@.groups.update(
                        k,
                        ProfileView {
                            children: Option::Some(
                                reorder_spec(
                                    old(self)@.groups[k].children->Some_0,
                                    profile_id as int,
                                    new_index as int,
                                ),
                            ),
                            ..old(self)@.groups[k]
                        },
                    ),
                    ..old(self)@
                }),
                Option::None => final(self)@ == old(self)@,
            },
    {
        proof {
            lemma_views_of_vec(self.mdx_groups@);
        }
        let ghost gs = self@.groups;
        let n = self.mdx_groups.len();
        let mut i: usize = 0;
        while i < n
            invariant
                i <= n,
                n == self.mdx_groups@.len(),
                self@ == old(self)@,
                self.mdx_groups@ == old(self).mdx_groups@,
                gs == views_of_vec(self.mdx_groups@),
                gs.len() == n,
                forall|k: int| 0 <= k < n ==> gs[k] == profile_view(self.mdx_groups@[k]),
                forall|k: int|
                    0 <= k < i ==> !(gs[k].profile_id == parent_group_id as int && gs[k].children
                        is Some),
            decreases n - i,
        {
            let is_target = self.mdx_groups[i].profile_id == parent_group_id
                && self.mdx_groups[i].is_group();
            if is_target {
                proof {
                    lemma_find_index_group_witness(gs, parent_group_id as int, i as int);
                }
                let mut g = self.mdx_groups.remove(i);
                proof {
                    assert(g@ == gs[i as int]);
                }
                g.adjust_profile_order(profile_id, new_index);
                let ghost gval = g;
                self.mdx_groups.insert(i, g);
                proof {
                    assert(self.mdx_groups@ =~= old(self).mdx_groups@.update(i as int, gval));
                    lemma_views_of_vec(self.mdx_groups@);
                    lemma_views_of_vec(old(self).mdx_groups@);
                    assert(views_of_vec(self.mdx_groups@) =~= gs.update(
                        i as int,
                        ProfileView {
                            children: Option::Some(
                                reorder_spec(
                                    gs[i as int].children->Some_0,
                                    profile_id as int,
                                    new_index as int,
                                ),
                            ),
                            ..gs[i as int]
                        },
                    ));
                    assert(self@ =~~= (LibraryView {
                        groups: views_of_vec(self.mdx_groups@),
                        ..old(self)@
                    }));
                }
                return ;
            }
            i = i + 1;
        }
        proof {
            lemma_find_index_group_none(gs, parent_group_id as int);
        }
    }

    /// Moves a top-level group to a new position; an out-of-range index
    /// appends at the end. Without a matching group the catalog is
    /// unchanged.
    pub fn adjust_group_order(&mut self, group_id: ProfileId, new_index: usize)
        ensures
            final(self)@ == (LibraryView {
                groups: reorder_spec(old(self)@.groups, group_id as int, new_index as int),
                ..old(self)@
            }),
    {
        proof {
            lemma_views_of_vec(self.mdx_groups@);
        }
        let ghost gs = self@.groups;
        let n = self.mdx_groups.len();
        let mut rest: Vec<MdxProfile> = Vec::new();
        let mut target: Option<MdxProfile> = Option::None;
        let mut i: usize = 0;
        proof {
            assert(gs.take(0) =~= Seq::<ProfileView>::empty());
        }
        while i < n
            invariant
                i <= n,
                n == self.mdx_groups@.len(),
                gs == views_of_vec(self.mdx_groups@),
                gs.len() == n,
                forall|k: int| 0 <= k < n ==> gs[k] == profile_view(self.mdx_groups@[k]),
                views_of_vec(rest@) == remove_id_spec(gs.take(i as int), group_id as int),
                match target {
                    Option::Some(t) => last_by_id(gs.take(i as int), group_id as int)
                        == Option::Some(t@),
                    Option::None => last_by_id(gs.take(i as int), group_id as int) is None,
                },
            decreases n - i,
        {
            proof {
                assert(gs.take(i + 1).drop_last() =~= gs.take(i as int));
                assert(gs.take(i + 1).last() == gs[i as int]);
            }
            if self.mdx_groups[i].profile_id != group_id {
                let ghost r0 = rest@;
                rest.push(self.mdx_groups[i].clone());
                proof {
                    assert(rest@.drop_last() =~= r0);
                    assert(views_of_vec(rest@) =~= remove_id_spec(gs.take(i + 1), group_id as int));
                }
            } else {
                target = Option::Some(self.mdx_groups[i].clone());
            }
            i = i + 1;
        }
        proof {
            assert(gs.take(n as int) =~= gs);
        }
        if let Option::Some(t) = target {
            let ghost tv = t@;
            let ghost restv = views_of_vec(rest@);
            proof {
                lemma_views_of_vec(rest@);
            }
            let ghost prev_rest = rest@;
            if new_index < rest.len() {
                rest.insert(new_index, t);
                proof {
                    lemma_views_of_vec(rest@);
                    lemma_views_of_vec(prev_rest);
                    assert(views_of_vec(rest@) =~= restv.insert(new_index as int, tv));
                }
            } else {
                rest.push(t);
                proof {
                    assert(rest@.drop_last() =~= prev_rest);
                    assert(views_of_vec(rest@) =~= restv.push(tv));
                }
            }
            let ghost newgs = views_of_vec(rest@);
            self.mdx_groups = rest;
            proof {
                assert(newgs == reorder_spec(gs, group_id as int, new_index as int));
                assert(self@ =~~= (LibraryView {
                    groups: reorder_spec(gs, group_id as int, new_index as int),
                    ..old(self)@
                }));
            }
        } else {
            proof {
                assert(reorder_spec(gs, group_id as int, new_index as int) == gs);
                assert(self@ =~~= (LibraryView {
                    groups: reorder_spec(gs, group_id as int, new_index as int),
                    ..old(self)@
                }));
            }
        }
    }
}

impl LibraryManager {
    /// Merges the scanned candidate list into one group by url identity:
    /// a candidate whose url matches an existing child keeps that child
    /// unchanged, an unmatched candidate is appended under a fresh id, and
    /// a child whose url disappeared from the candidates is dropped.
    fn merge_profiles_by_url(
        &self,
        target: &mut MdxProfile,
        source: &Vec<MdxProfile>,
        next_id: &mut ProfileId,
    )
        requires
            *old(next_id) as int + source@.len() <= i32::MAX as int,
        ensures
            ({
                let tcs = match old(target)@.children {
                    Option::Some(cs) => cs,
                    Option::None => Seq::empty(),
                };
                let m = merge_children_spec(tcs, views_of_vec(source@), *old(next_id) as int);
                final(target)@ == (ProfileView { children: Option::Some(m.0), ..old(target)@ })
                    && *final(next_id) as int == m.1 && *old(next_id) <= *final(next_id)
                    && *final(next_id) as int <= *old(next_id) as int + source@.len()
            }),
    {
        let ghost tcs = match old(target)@.children {
            Option::Some(cs) => cs,
            Option::None => Seq::<ProfileView>::empty(),
        };
        let ghost n0 = *next_id as int;
        let empty_children: Vec<MdxProfile> = Vec::new();
        let cur: &Vec<MdxProfile> = match &target.profiles {
            Option::Some(v) => v,
            Option::None => &empty_children,
        };
        proof {
            lemma_views_of_vec(cur@);
            assert(views_of_vec(cur@) =~= tcs);
        }
        let ghost srcv = views_of_vec(source@);
        proof {
            lemma_views_of_vec(source@);
            assert(srcv.take(0) =~= Seq::<ProfileView>::empty());
        }
        let mut merged: Vec<MdxProfile> = Vec::new();
        let mut i: usize = 0;
        while i < source.len()
            invariant
                i <= source@.len(),
                n0 + source@.len() <= i32::MAX as int,
                views_of_vec(cur@) == tcs,
                tcs.len() == cur@.len(),
                forall|k: int| 0 <= k < cur@.len() ==> tcs[k] == profile_view(cur@[k]),
                srcv == views_of_vec(source@),
                srcv.len() == source@.len(),
                forall|k: int| 0 <= k < source@.len() ==> srcv[k] == profile_view(source@[k]),
                views_of_vec(merged@) == merge_children_spec(tcs, srcv.take(i as int), n0).0,
                *next_id as int == merge_children_spec(tcs, srcv.take(i as int), n0).1,
                n0 <= *next_id as int <= n0 + i,
            decreases source@.len() - i,
        {
            let mut found = false;
            let mut fidx: usize = 0;
            let mut j: usize = 0;
            while j < cur.len()
                invariant
                    j <= cur@.len(),
                    tcs.len() == cur@.len(),
                    i < source@.len(),
                    n0 + source@.len() <= i32::MAX as int,
                    views_of_vec(cur@) == tcs,
                    srcv == views_of_vec(source@),
                    srcv.len() == source@.len(),
                    forall|k: int| 0 <= k < cur@.len() ==> tcs[k] == profile_view(cur@[k]),
                    forall|k: int| 0 <= k < source@.len() ==> srcv[k] == profile_view(
                        source@[k],
                    ),
                    views_of_vec(merged@) == merge_children_spec(tcs, srcv.take(i as int), n0).0,
                    *next_id as int == merge_children_spec(tcs, srcv.take(i as int), n0).1,
                    n0 <= *next_id as int <= n0 + i,
                    found ==> fidx < cur@.len() && tcs[fidx as int].url == srcv[i as int].url
                        && forall|k: int| 0 <= k < fidx ==> tcs[k].url != srcv[i as int].url,
                    !found ==> forall|k: int| 0 <= k < j ==> tcs[k].url != srcv[i as int].url,
                decreases cur@.len() - j,
            {
                if !found && str_eq(cur[j].url.as_str(), source[i].url.as_str()) {
                    found = true;
                    fidx = j;
                }
                j = j + 1;
            }
            let ghost m0 = merged@;
            proof {
                assert(srcv.take(i + 1).drop_last() =~= srcv.take(i as int));
                assert(srcv.take(i + 1).last() == srcv[i as int]);
            }
            if found {
                proof {
                    lemma_find_by_url_witness(tcs, srcv[i as int].url, fidx as int);
                }
                merged.push(cur[fidx].clone());
                proof {
                    assert(merged@.drop_last() =~= m0);
                    assert(views_of_vec(merged@) =~= merge_children_spec(
                        tcs,
                        srcv.take(i + 1),
                        n0,
                    ).0);
                }
            } else {
                proof {
                    lemma_find_by_url_none(tcs, srcv[i as int].url);
                }
                let mut np = source[i].clone();
                np.profile_id = *next_id;
                proof {
                    assert(np@ =~~= (ProfileView {
                        profile_id: *next_id as int,
                        ..srcv[i as int]
                    }));
                }
                merged.push(np);
                *next_id = *next_id + 1;
                proof {
                    assert(merged@.drop_last() =~= m0);
                    assert(views_of_vec(merged@) =~= merge_children_spec(
                        tcs,
                        srcv.take(i + 1),
                        n0,
                    ).0);
                }
            }
            i = i + 1;
        }
        proof {
            assert(srcv.take(srcv.len() as int) =~= srcv);
        }
        target.profiles = Option::Some(merged);
        proof {
            assert(target@ =~~= (ProfileView {
                children: Option::Some(merge_children_spec(tcs, srcv, n0).0),
                ..old(target)@
            }));
        }
    }

    /// Rebuilds every group's children from the scanned candidate urls,
    /// merging by url identity so that rescans are idempotent and leaf
    /// ids are stable.
    pub fn refresh_library(&mut self, candidate_urls: &Vec<String>)
        requires
            views_max_id(old(self)@.groups) + 1 + old(self)@.groups.len() * candidate_urls@.len()
                <= i32::MAX as int,
        ensures
            final(self)@ == (LibraryView {
                groups: refresh_spec(
                    old(self)@.groups,
                    candidate_views(
                        candidate_urls@.map_values(|s: String| s@),
                        old(self)@.default_font,
                    ),
                    views_max_id(old(self)@.groups) + 1,
                ).0,
                ..old(self)@
            }),
    {
        let ghost urlviews = candidate_urls@.map_values(|s: String| s@);
        let ghost font = self@.default_font;
        let mut scanned: Vec<MdxProfile> = Vec::new();
        let mut c: usize = 0;
        proof {
            assert(urlviews.take(0) =~= Seq::<Seq<char>>::empty());
        }
        while c < candidate_urls.len()
            invariant
                c <= candidate_urls@.len(),
                self@ == old(self)@,
                self.mdx_groups@ == old(self).mdx_groups@,
                urlviews == candidate_urls@.map_values(|s: String| s@),
                urlviews.len() == candidate_urls@.len(),
                font == self@.default_font,
                scanned@.len() == c,
                views_of_vec(scanned@) == candidate_views(urlviews.take(c as int), font),
            decreases candidate_urls@.len() - c,
        {
            proof {
                assert(urlviews.take(c + 1).drop_last() =~= urlviews.take(c as int));
                assert(urlviews.take(c + 1).last() == urlviews[c as int]);
                assert(urlviews[c as int] == candidate_urls@[c as int]@);
            }
            let mut p = MdxProfile::new(candidate_urls[c].clone(), INVALID_PROFILE_ID, false);
            p.options = self.default_mdx_options.clone();
            proof {
                assert(p@ =~~= candidate_view(urlviews[c as int], font));
            }
            let ghost s0 = scanned@;
            scanned.push(p);
            proof {
                assert(scanned@.drop_last() =~= s0);
                assert(views_of_vec(scanned@) =~= candidate_views(urlviews.take(c + 1), font));
            }
            c = c + 1;
        }
        proof {
            assert(urlviews.take(urlviews.len() as int) =~= urlviews);
        }
        let ghost cands = candidate_views(urlviews, font);
        let ghost gs0 = self@.groups;
        let ghost clen = cands.len();
        proof {
            lemma_views_of_vec(scanned@);
            lemma_views_of_vec(self.mdx_groups@);
        }
        let next0 = self.get_next_profile_id();
        let ghost n0 = next0 as int;
        let mut next_id: ProfileId = next0;
        let n = self.mdx_groups.len();
        let mut i: usize = 0;
        proof {
            assert(gs0.take(0) =~= Seq::<ProfileView>::empty());
            assert(refresh_spec(gs0.take(0), cands, n0).0 =~= Seq::<ProfileView>::empty());
            assert(gs0.skip(0) =~= gs0);
            assert(refresh_spec(gs0.take(0), cands, n0).0 + gs0.skip(0) =~= gs0);
            assert(self@ =~~= (LibraryView {
                groups: views_of_vec(self.mdx_groups@),
                ..old(self)@
            }));
        }
        while i < n
            invariant
                i <= n,
                n == self.mdx_groups@.len(),
                gs0.len() == n,
                views_of_vec(scanned@) == cands,
                clen == cands.len(),
                cands.len() == scanned@.len(),
                n0 + 1 + n * clen <= i32::MAX as int + 1,
                self@ == (LibraryView {
                    groups: views_of_vec(self.mdx_groups@),
                    ..old(self)@
                }),
                gs0 == old(self)@.groups,
                views_of_vec(self.mdx_groups@) == refresh_spec(gs0.take(i as int), cands, n0).0
                    + gs0.skip(i as int),
                next_id as int == refresh_spec(gs0.take(i as int), cands, n0).1,
                n0 <= next_id as int,
                next_id as int <= n0 + i * clen,
            decreases n - i,
        {
            proof {
                lemma_refresh_spec_len(gs0.take(i as int), cands, n0);
                assert(gs0.take(i + 1).drop_last() =~= gs0.take(i as int));
                assert(gs0.take(i + 1).last() == gs0[i as int]);
                assert((refresh_spec(gs0.take(i as int), cands, n0).0 + gs0.skip(i as int))[
                    i as int] == gs0.skip(i as int)[0]);
                assert(gs0.skip(i as int)[0] == gs0[i as int]);
                assert(next_id as int + clen <= i32::MAX as int) by (nonlinear_arith)
                    requires
                        next_id as int <= n0 + i * clen,
                        n0 + 1 + n * clen <= i32::MAX as int + 1,
                        0 <= i < n,
                        0 <= clen,
                {}
            }
            let ghost pre_remove = self.mdx_groups@;
            let mut g = self.mdx_groups.remove(i);
            proof {
                lemma_views_of_vec(pre_remove);
                assert(g == pre_remove[i as int]);
                assert(g@ == views_of_vec(pre_remove)[i as int]);
                assert(g@ == gs0[i as int]);
            }
            self.merge_profiles_by_url(&mut g, &scanned, &mut next_id);
            let ghost gval = g;
            let ghost pre_insert = self.mdx_groups@;
            self.mdx_groups.insert(i, g);
            proof {
                lemma_views_of_vec(self.mdx_groups@);
                lemma_views_of_vec(pre_insert);
                lemma_views_of_vec(pre_remove);
                lemma_refresh_spec_len(gs0.take(i + 1), cands, n0);
                assert(self.mdx_groups@ =~= pre_insert.insert(i as int, gval));
                let ghost done = refresh_spec(gs0.take(i as int), cands, n0);
                assert(refresh_spec(gs0.take(i + 1), cands, n0).0 == done.0.push(
                    merge_group_spec(gs0[i as int], cands, done.1).0,
                ));
                assert(profile_view(gval) =~~= merge_group_spec(gs0[i as int], cands, done.1).0);
                let ghost curv = self.mdx_groups@;
                let ghost tgt = refresh_spec(gs0.take(i + 1), cands, n0).0 + gs0.skip(i + 1);
                assert(curv.len() == n);
                assert(tgt.len() == n);
                assert forall|k: int| 0 <= k < n implies views_of_vec(curv)[k] == tgt[k] by {
                    if k < i {
                        assert(curv[k] == pre_insert[k]);
                        assert(pre_insert[k] == pre_remove[k]);
                        assert(views_of_vec(pre_remove)[k] == done.0[k]);
                        assert(tgt[k] == done.0[k]);
                    } else if k == i {
                        assert(curv[k] == gval);
                        assert(tgt[k] == merge_group_spec(gs0[i as int], cands, done.1).0);
                    } else {
                        assert(curv[k] == pre_insert[k - 1]);
                        assert(pre_insert[k - 1] == pre_remove[k]);
                        assert(views_of_vec(pre_remove)[k] == gs0.skip(i as int)[k - i]);
                        assert(gs0.skip(i as int)[k - i] == gs0[k]);
                        assert(tgt[k] == gs0.skip(i + 1)[k - i - 1]);
                        assert(gs0.skip(i + 1)[k - i - 1] == gs0[k]);
                    }
                }
                assert(views_of_vec(curv) =~= tgt);
                assert(next_id as int <= n0 + (i + 1) * clen) by (nonlinear_arith)
                    requires
                        next_id as int <= refresh_spec(gs0.take(i + 1), cands, n0).1,
                        refresh_spec(gs0.take(i + 1), cands, n0).1 <= refresh_spec(
                            gs0.take(i as int),
                            cands,
                            n0,
                        ).1 + clen,
                        refresh_spec(gs0.take(i as int), cands, n0).1 <= n0 + i * clen,
                        0 <= clen,
                {}
                assert(self@ =~~= (LibraryView {
                    groups: views_of_vec(self.mdx_groups@),
                    ..old(self)@
                }));
            }
            i = i + 1;
        }
        proof {
            assert(gs0.take(n as int) =~= gs0);
            assert(gs0.skip(n as int) =~= Seq::<ProfileView>::empty());
            assert(refresh_spec(gs0, cands, n0).0 + Seq::<ProfileView>::empty() =~= refresh_spec(
                gs0,
                cands,
                n0,
            ).0);
            assert(self@ =~~= (LibraryView {
                groups: refresh_spec(gs0, cands, n0).0,
                ..old(self)@
            }));
        }
    }
}

/// The first element of `cs` with the given url.
pub open spec fn find_by_url(cs: Seq<ProfileView>, url: Seq<char>) -> Option<ProfileView>
    decreases cs.len(),
{
    if cs.len() == 0 {
        Option::None
    } else if cs[0].url == url {
        Option::Some(cs[0])
    } else {
        find_by_url(cs.drop_first(), url)
    }
}

/// A first-match witness determines `find_by_url`.
pub proof fn lemma_find_by_url_witness(cs: Seq<ProfileView>, url: Seq<char>, j: int)
    requires
        0 <= j < cs.len(),
        cs[j].url == url,
        forall|k: int| 0 <= k < j ==> cs[k].url != url,
    ensures
        find_by_url(cs, url) == Option::Some(cs[j]),
    decreases cs.len(),
{
    if cs[0].url == url {
        assert(j == 0) by {
            if j > 0 {
                assert(cs[0].url != url);
            }
        }
    } else {
        assert(cs.drop_first()[j - 1] == cs[j]);
        assert forall|k: int| 0 <= k < j - 1 implies cs.drop_first()[k].url != url by {
            assert(cs.drop_first()[k] == cs[k + 1]);
        }
        lemma_find_by_url_witness(cs.drop_first(), url, j - 1);
    }
}

/// A full scan without a match refutes `find_by_url`.
pub proof fn lemma_find_by_url_none(cs: Seq<ProfileView>, url: Seq<char>)
    requires
        forall|k: int| 0 <= k < cs.len() ==> cs[k].url != url,
    ensures
        find_by_url(cs, url) is None,
    decreases cs.len(),
{
    if cs.len() > 0 {
        assert forall|k: int| 0 <= k < cs.len() - 1 implies cs.drop_first()[k].url != url by {
            assert(cs.drop_first()[k] == cs[k + 1]);
        }
        lemma_find_by_url_none(cs.drop_first(), url);
    }
}

/// The url-identity merge of one child list against the scanned candidate
/// list `scs`: candidates matched by url keep the existing child (same id,
/// same settings), unmatched candidates enter under freshly allocated ids,
/// and existing children whose url is not among the candidates are
/// dropped. Returns the merged list and the next free id.
pub open spec fn merge_children_spec(
    tcs: Seq<ProfileView>,
    scs: Seq<ProfileView>,
    next0: int,
) -> (Seq<ProfileView>, int)
    decreases scs.len(),
{
    if scs.len() == 0 {
        (Seq::empty(), next0)
    } else {
        let pre = merge_children_spec(tcs, scs.drop_last(), next0);
        match find_by_url(tcs, scs.last().url) {
            Option::Some(t) => (pre.0.push(t), pre.1),
            Option::None => (
                pre.0.push(ProfileView { profile_id: pre.1, ..scs.last() }),
                pre.1 + 1,
            ),
        }
    }
}

/// The merge applied to one group node.
pub open spec fn merge_group_spec(g: ProfileView, scs: Seq<ProfileView>, next0: int) -> (
    ProfileView,
    int,
) {
    let tcs = match g.children {
        Option::Some(cs) => cs,
        Option::None => Seq::empty(),
    };
    let m = merge_children_spec(tcs, scs, next0);
    (ProfileView { children: Option::Some(m.0), ..g }, m.1)
}

/// The merge applied to every group in order, threading the id counter.
pub open spec fn refresh_spec(gs: Seq<ProfileView>, scs: Seq<ProfileView>, next0: int) -> (
    Seq<ProfileView>,
    int,
)
    decreases gs.len(),
{
    if gs.len() == 0 {
        (Seq::empty(), next0)
    } else {
        let pre = refresh_spec(gs.drop_last(), scs, next0);
        let m = merge_group_spec(gs.last(), scs, pre.1);
        (pre.0.push(m.0), m.1)
    }
}

/// The refreshed group list has one entry per group.
pub proof fn lemma_refresh_spec_len(gs: Seq<ProfileView>, scs: Seq<ProfileView>, next0: int)
    ensures
        refresh_spec(gs, scs, next0).0.len() == gs.len(),
    decreases gs.len(),
{
    if gs.len() > 0 {
        lemma_refresh_spec_len(gs.drop_last(), scs, next0);
    }
}

/// The view of one scanned candidate leaf.
pub open spec fn candidate_view(url: Seq<char>, font: Seq<char>) -> ProfileView {
    ProfileView {
        title: decoded_stem_of(url),
        description: Seq::empty(),
        url: url,
        disabled: false,
        profile_id: INVALID_PROFILE_ID as int,
        font_file_path: font,
        children: Option::None,
        as_union: false,
    }
}

/// The candidate leaves for a list of scanned urls, in scan order.
pub open spec fn candidate_views(urls: Seq<Seq<char>>, font: Seq<char>) -> Seq<ProfileView>
    decreases urls.len(),
{
    if urls.len() == 0 {
        Seq::empty()
    } else {
        candidate_views(urls.drop_last(), font).push(candidate_view(urls.last(), font))
    }
}

/// Whether the elements of `scs` carry pairwise distinct urls.
pub open spec fn urls_distinct(scs: Seq<ProfileView>) -> bool {
    forall|i: int, j: int| 0 <= i < j < scs.len() ==> scs[i].url != scs[j].url
}

/// What one merge produces: one entry per candidate, in candidate order;
/// a candidate whose url matches an existing child keeps that child
/// unchanged, id included, and every merged entry carries its candidate's
/// url — so a url that disappeared from the candidates is dropped.
pub proof fn lemma_merge_urls(tcs: Seq<ProfileView>, scs: Seq<ProfileView>, next0: int)
    ensures
        merge_children_spec(tcs, scs, next0).0.len() == scs.len(),
        forall|i: int| 0 <= i < scs.len() ==> #[trigger] merge_children_spec(
            tcs,
            scs,
            next0,
        ).0[i].url == scs[i].url,
        forall|i: int|
            0 <= i < scs.len() && find_by_url(tcs, scs[i].url) is Some
                ==> #[trigger] merge_children_spec(tcs, scs, next0).0[i] == find_by_url(
                tcs,
                scs[i].url,
            )->Some_0,
    decreases scs.len(),
{
    if scs.len() > 0 {
        lemma_merge_urls(tcs, scs.drop_last(), next0);
        lemma_find_by_url_props(tcs, scs.last().url);
        let pre = merge_children_spec(tcs, scs.drop_last(), next0);
        let r = merge_children_spec(tcs, scs, next0);
        assert forall|i: int| 0 <= i < scs.len() implies #[trigger] r.0[i].url == scs[i].url by {
            if i < scs.len() - 1 {
                assert(r.0[i] == pre.0[i]);
                assert(scs.drop_last()[i] == scs[i]);
            }
        }
        assert forall|i: int|
            0 <= i < scs.len() && find_by_url(tcs, scs[i].url) is Some implies #[trigger] r.0[i]
            == find_by_url(tcs, scs[i].url)->Some_0 by {
            if i < scs.len() - 1 {
                assert(r.0[i] == pre.0[i]);
                assert(scs.drop_last()[i] == scs[i]);
            }
        }
    }
}

/// What a url lookup returns: an element of the list carrying that url.
pub proof fn lemma_find_by_url_props(cs: Seq<ProfileView>, url: Seq<char>)
    ensures
        match find_by_url(cs, url) {
            Option::Some(t) => t.url == url && exists|j: int| 0 <= j < cs.len() && cs[j] == t,
            Option::None => true,
        },
    decreases cs.len(),
{
    if cs.len() > 0 {
        if cs[0].url == url {
            assert(cs[0] == cs[0]);
        } else {
            lemma_find_by_url_props(cs.drop_first(), url);
            match find_by_url(cs.drop_first(), url) {
                Option::Some(t) => {
                    let j = choose|j: int|
                        0 <= j < cs.drop_first().len() && cs.drop_first()[j] == t;
                    assert(cs[j + 1] == cs.drop_first()[j]);
                },
                Option::None => (),
            }
        }
    }
}

/// Re-merging an already merged child list against the same distinct
/// candidates changes nothing and allocates no ids.
pub proof fn lemma_remerge_prefix(r0: Seq<ProfileView>, scs: Seq<ProfileView>, j: int, m: int)
    requires
        r0.len() == scs.len(),
        forall|i: int| 0 <= i < scs.len() ==> #[trigger] r0[i].url == scs[i].url,
        urls_distinct(scs),
        0 <= j <= scs.len(),
    ensures
        merge_children_spec(r0, scs.take(j), m) == (r0.take(j), m),
    decreases j,
{
    if j == 0 {
        assert(merge_children_spec(r0, scs.take(0), m).0 =~= r0.take(0)) by {
            assert(scs.take(0) =~= Seq::<ProfileView>::empty());
        }
        assert(scs.take(0) =~= Seq::<ProfileView>::empty());
    } else {
        lemma_remerge_prefix(r0, scs, j - 1, m);
        assert(scs.take(j).drop_last() =~= scs.take(j - 1));
        assert(scs.take(j).last() == scs[j - 1]);
        assert forall|k: int| 0 <= k < j - 1 implies r0[k].url != scs[j - 1].url by {
            assert(r0[k].url == scs[k].url);
        }
        lemma_find_by_url_witness(r0, scs[j - 1].url, j - 1);
        assert(merge_children_spec(r0, scs.take(j), m).0 =~= r0.take(j - 1).push(r0[j - 1]));
        assert(r0.take(j - 1).push(r0[j - 1]) =~= r0.take(j));
    }
}

/// Merging twice with the same distinct candidate set is idempotent:
/// the second merge returns the first merge's list, ids and order
/// included, and allocates nothing.
pub proof fn lemma_merge_idempotent(
    tcs: Seq<ProfileView>,
    scs: Seq<ProfileView>,
    next0: int,
    m: int,
)
    requires
        urls_distinct(scs),
    ensures
        merge_children_spec(merge_children_spec(tcs, scs, next0).0, scs, m) == (
            merge_children_spec(tcs, scs, next0).0,
            m,
        ),
{
    let r0 = merge_children_spec(tcs, scs, next0).0;
    lemma_merge_urls(tcs, scs, next0);
    lemma_remerge_prefix(r0, scs, scs.len() as int, m);
    assert(scs.take(scs.len() as int) =~= scs);
    assert(r0.take(r0.len() as int) =~= r0);
}

/// Rescanning the whole catalog twice with the same distinct candidate
/// set is idempotent: ids and order are identical.
pub proof fn lemma_refresh_idempotent(
    gs: Seq<ProfileView>,
    scs: Seq<ProfileView>,
    next0: int,
    m: int,
)
    requires
        urls_distinct(scs),
    ensures
        refresh_spec(refresh_spec(gs, scs, next0).0, scs, m).0 == refresh_spec(gs, scs, next0).0,
        refresh_spec(refresh_spec(gs, scs, next0).0, scs, m).1 == m,
    decreases gs.len(),
{
    if gs.len() == 0 {
        assert(refresh_spec(gs, scs, next0).0 =~= Seq::<ProfileView>::empty());
    } else {
        lemma_refresh_idempotent(gs.drop_last(), scs, next0, m);
        let r1 = refresh_spec(gs, scs, next0);
        let pre1 = refresh_spec(gs.drop_last(), scs, next0);
        assert(r1.0.drop_last() =~= pre1.0);
        assert(r1.0.last() == merge_group_spec(gs.last(), scs, pre1.1).0);
        let g1 = merge_group_spec(gs.last(), scs, pre1.1).0;
        let r2pre = refresh_spec(pre1.0, scs, m);
        let tcs1 = g1.children->Some_0;
        lemma_merge_idempotent(
            match gs.last().children {
                Option::Some(cs) => cs,
                Option::None => Seq::empty(),
            },
            scs,
            pre1.1,
            r2pre.1,
        );
        assert(merge_group_spec(g1, scs, r2pre.1).0 =~~= g1);
        assert(refresh_spec(r1.0, scs, m).0 =~= r1.0);
    }
}

/// The view of the auto-created default group.
pub open spec fn default_group_view() -> ProfileView {
    ProfileView {
        title: "All databases"@,
        description: Seq::empty(),
        url: Seq::empty(),
        disabled: false,
        profile_id: DEFAULT_GROUP_ID as int,
        font_file_path: Seq::empty(),
        children: Option::Some(Seq::empty()),
        as_union: true,
    }
}

/// The greatest id in one profile subtree, floored at 0.
fn profile_max_id(p: &MdxProfile) -> (r: i32)
    ensures
        r as int == view_max_id(p@),
    decreases *p,
{
    let mut m: i32 = 0;
    if let Option::Some(v) = &p.profiles {
        proof {
            lemma_views_of_vec(v@);
        }
        let ghost cs = views_of_vec(v@);
        let mut i: usize = 0;
        proof {
            assert(cs.take(0) =~= Seq::<ProfileView>::empty());
        }
        while i < v.len()
            invariant
                i <= v@.len(),
                p.profiles == Option::Some(*v),
                cs == views_of_vec(v@),
                cs.len() == v@.len(),
                forall|k: int| 0 <= k < cs.len() ==> cs[k] == profile_view(v@[k]),
                m as int == views_max_id(cs.take(i as int)),
            decreases v@.len() - i,
        {
            proof {
                assert(cs.take(i + 1).drop_last() =~= cs.take(i as int));
                assert(cs.take(i + 1).last() == cs[i as int]);
                assert(decreases_to!(*p => p.profiles));
                assert(decreases_to!(p.profiles => p.profiles->Some_0));
                assert(p.profiles->Some_0 == *v);
                assert(decreases_to!(*v => v@));
                assert(decreases_to!(v@ => v@[i as int]));
            }
            let cm = profile_max_id(&v[i]);
            if cm > m {
                m = cm;
            }
            i = i + 1;
        }
        proof {
            assert(cs.take(cs.len() as int) =~= cs);
        }
    }
    if p.profile_id > m {
        p.profile_id
    } else {
        m
    }
}


impl LibraryManager {
    /// Serializes the catalog: the ordered list of top-level groups in
    /// the persisted JSON shape.
    pub fn to_json(&self) -> (r: String)
        ensures
            r@ == enc_profiles(self@.groups),
    {
        catalog_to_json(&self.mdx_groups)
    }

    /// Parses a persisted catalog, then makes sure the default group
    /// exists. Anything the format does not describe is an
    /// invalid-data-format error.
    pub fn from_json(json: &str) -> (r: Result<LibraryManager, ZdbError>)
        requires
            json@.len() < usize::MAX,
        ensures
            match r {
                Result::Ok(m) => parse_catalog(json@) matches Option::Some(gs) && m@.groups == (
                if get_group_spec(gs, DEFAULT_GROUP_ID as int) is Some {
                    gs
                } else {
                    gs.push(default_group_view())
                }) && m@.default_font == Seq::<char>::empty() && m@.file_path == Seq::<
                    char,
                >::empty(),
                Result::Err(e) => parse_catalog(json@) is None && e == ZdbError::InvalidDataFormat,
            },
    {
        match catalog_from_json(json) {
            Option::Some(v) => {
                let mut manager = LibraryManager {
                    mdx_groups: v,
                    default_mdx_options: MdxOptions::default(),
                    library_file_path: String::new(),
                };
                manager.ensure_default_group();
                Result::Ok(manager)
            },
            Option::None => Result::Err(ZdbError::InvalidDataFormat),
        }
    }
}

/// With no matching id anywhere it is searched, the group-level removal
/// changes nothing.
pub proof fn lemma_remove_in_groups_unfound(gs: Seq<ProfileView>, id: int)
    ensures
        !remove_in_groups_spec(gs, id).1 ==> remove_in_groups_spec(gs, id).0 == gs,
    decreases gs.len(),
{
    if gs.len() > 0 && !has_direct_child(gs[0], id) {
        lemma_remove_in_groups_unfound(gs.drop_first(), id);
        if !remove_in_groups_spec(gs, id).1 {
            assert(seq![gs[0]] + gs.drop_first() =~= gs);
        }
    }
}

/// Removing an id that is absent reports nothing removed and leaves the
/// catalog unchanged — and the serialize/deserialize round trip
/// reproduces that catalog exactly.
pub proof fn lemma_remove_absent_round_trip(gs: Seq<ProfileView>, id: int)
    requires
        !remove_profile_spec(gs, id).1,
        ids_ok_l(gs),
    ensures
        remove_profile_spec(gs, id).0 == gs,
        parse_catalog(enc_profiles(gs)) == Option::Some(gs),
{
    lemma_remove_in_groups_unfound(gs, id);
    lemma_catalog_round_trip(gs);
}


/// Whether a file name names a dictionary file: it does not start with a
/// dot and ends with `.mdx` in any letter case.
pub open spec fn is_dict_file_name(s: Seq<char>) -> bool {
    &&& s.len() >= 5
    &&& s[0] != '.'
    &&& s[s.len() - 4] == '.'
    &&& (s[s.len() - 3] == 'm' || s[s.len() - 3] == 'M')
    &&& (s[s.len() - 2] == 'd' || s[s.len() - 2] == 'D')
    &&& (s[s.len() - 1] == 'x' || s[s.len() - 1] == 'X')
}

/// Decides whether a scanned file name is a dictionary file candidate:
/// not a dot-file, with the dictionary extension in any letter case.
pub fn is_dictionary_file_name(name: &str) -> (r: bool)
    ensures
        r == is_dict_file_name(name@),
{
    let len = name.unicode_len();
    if len < 5 {
        return false;
    }
    let c0 = name.get_char(0);
    let d = name.get_char(len - 4);
    let m = name.get_char(len - 3);
    let dd = name.get_char(len - 2);
    let x = name.get_char(len - 1);
    c0 != '.' && d == '.' && (m == 'm' || m == 'M') && (dd == 'd' || dd == 'D') && (x == 'x' || x
        == 'X')
}

} // verus!
