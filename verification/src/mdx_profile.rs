//! The catalog node type: a profile is either a group holding an ordered
//! list of child profiles or a leaf naming one dictionary source.

use vstd::prelude::*;
use crate::text::decoded_stem;
use crate::text::decoded_stem_of;

verus! {

broadcast use vstd::std_specs::vec::group_vec_axioms;

pub type ProfileId = i32;

/// The id of the root "all databases" group, present in every catalog.
pub const DEFAULT_GROUP_ID: ProfileId = 1;

/// The sentinel for "no profile".
pub const INVALID_PROFILE_ID: ProfileId = -1;

/// Per-profile display options.
#[derive(Debug)]
pub struct MdxOptions {
    pub font_file_path: String,
}

/// Ghost projection of `MdxOptions`.
#[verifier::ext_equal]
pub ghost struct OptionsView {
    pub font_file_path: Seq<char>,
}

impl View for MdxOptions {
    type V = OptionsView;

    open spec fn view(&self) -> OptionsView {
        OptionsView { font_file_path: self.font_file_path@ }
    }
}

impl Clone for MdxOptions {
    fn clone(&self) -> (r: Self)
        ensures
            r@ == self@,
    {
        MdxOptions { font_file_path: self.font_file_path.clone() }
    }
}

impl Default for MdxOptions {
    fn default() -> (r: Self)
        ensures
            r@.font_file_path == Seq::<char>::empty(),
    {
        MdxOptions { font_file_path: String::new() }
    }
}

/// One catalog node. A node with `profiles == Some(..)` acts as a group;
/// one with `profiles == None` is a leaf referring to a dictionary by url.
#[derive(Debug)]
pub struct MdxProfile {
    pub title: String,
    pub description: String,
    pub url: String,
    pub disabled: bool,
    pub profile_id: ProfileId,
    pub options: MdxOptions,
    pub profiles: Option<Vec<MdxProfile>>,
    pub as_union: bool,
}

/// Ghost projection of a profile subtree: every string becomes a character
/// sequence and the child vector becomes a sequence of child views.
#[verifier::ext_equal]
pub ghost struct ProfileView {
    pub title: Seq<char>,
    pub description: Seq<char>,
    pub url: Seq<char>,
    pub disabled: bool,
    pub profile_id: int,
    pub font_file_path: Seq<char>,
    pub children: Option<Seq<ProfileView>>,
    pub as_union: bool,
}

/// The view of one profile node, with children projected recursively.
pub open spec fn profile_view(p: MdxProfile) -> ProfileView
    decreases p,
{
    ProfileView {
        title: p.title@,
        description: p.description@,
        url: p.url@,
        disabled: p.disabled,
        profile_id: p.profile_id as int,
        font_file_path: p.options.font_file_path@,
        children: match p.profiles {
            Option::None => Option::None,
            Option::Some(v) => Option::Some(views_of_vec(v@)),
        },
        as_union: p.as_union,
    }
}

/// The views of a sequence of profiles, in order.
pub open spec fn views_of_vec(s: Seq<MdxProfile>) -> Seq<ProfileView>
    decreases s,
{
    if s.len() == 0 {
        Seq::empty()
    } else {
        views_of_vec(s.drop_last()).push(profile_view(s.last()))
    }
}

/// `views_of_vec` is the pointwise view.
pub proof fn lemma_views_of_vec(s: Seq<MdxProfile>)
    ensures
        views_of_vec(s).len() == s.len(),
        forall|i: int| 0 <= i < s.len() ==> views_of_vec(s)[i] == profile_view(s[i]),
    decreases s.len(),
{
    if s.len() > 0 {
        lemma_views_of_vec(s.drop_last());
    }
}

impl View for MdxProfile {
    type V = ProfileView;

    open spec fn view(&self) -> ProfileView {
        profile_view(*self)
    }
}

/// Whether `id` occurs anywhere in the subtree rooted at `p`, nested
/// children included.
pub open spec fn view_contains_id(p: ProfileView, id: int) -> bool
    decreases p,
{
    p.profile_id == id || (match p.children {
        Option::Some(cs) => views_contain_id(cs, id),
        Option::None => false,
    })
}

/// Whether `id` occurs anywhere in any subtree of `s`.
pub open spec fn views_contain_id(s: Seq<ProfileView>, id: int) -> bool
    decreases s,
{
    if s.len() == 0 {
        false
    } else {
        views_contain_id(s.drop_last(), id) || view_contains_id(s.last(), id)
    }
}

/// The greatest id in the subtree rooted at `p`, floored at 0.
pub open spec fn view_max_id(p: ProfileView) -> int
    decreases p,
{
    let sub = match p.children {
        Option::Some(cs) => views_max_id(cs),
        Option::None => 0,
    };
    if p.profile_id > sub {
        p.profile_id
    } else {
        sub
    }
}

/// The greatest id anywhere in the subtrees of `s`, floored at 0.
pub open spec fn views_max_id(s: Seq<ProfileView>) -> int
    decreases s,
{
    if s.len() == 0 {
        0
    } else {
        let rest = views_max_id(s.drop_last());
        let lastm = view_max_id(s.last());
        if lastm > rest {
            lastm
        } else {
            rest
        }
    }
}

/// Every id contained in a subtree is bounded by that subtree's maximum.
pub proof fn lemma_contained_id_le_max(p: ProfileView, id: int)
    ensures
        view_contains_id(p, id) ==> id <= view_max_id(p),
    decreases p,
{
    match p.children {
        Option::Some(cs) => lemma_contained_ids_le_max(cs, id),
        Option::None => (),
    }
}

/// Every id contained anywhere in `s` is bounded by `views_max_id(s)`.
pub proof fn lemma_contained_ids_le_max(s: Seq<ProfileView>, id: int)
    ensures
        views_contain_id(s, id) ==> id <= views_max_id(s),
    decreases s,
{
    if s.len() > 0 {
        lemma_contained_ids_le_max(s.drop_last(), id);
        lemma_contained_id_le_max(s.last(), id);
    }
}

/// The index of the first element of `s` whose own id is `id`.
pub open spec fn find_index_by_id(s: Seq<ProfileView>, id: int) -> Option<int>
    decreases s.len(),
{
    if s.len() == 0 {
        Option::None
    } else if s[0].profile_id == id {
        Option::Some(0int)
    } else {
        match find_index_by_id(s.drop_first(), id) {
            Option::Some(j) => Option::Some(j + 1),
            Option::None => Option::None,
        }
    }
}

/// The first element of `s` whose own id is `id`.
pub open spec fn find_by_id(s: Seq<ProfileView>, id: int) -> Option<ProfileView> {
    match find_index_by_id(s, id) {
        Option::Some(i) => Option::Some(s[i]),
        Option::None => Option::None,
    }
}

/// A first-match witness determines `find_index_by_id`.
pub proof fn lemma_find_index_witness(s: Seq<ProfileView>, id: int, i: int)
    requires
        0 <= i < s.len(),
        s[i].profile_id == id,
        forall|k: int| 0 <= k < i ==> s[k].profile_id != id,
    ensures
        find_index_by_id(s, id) == Option::Some(i),
    decreases s.len(),
{
    if s[0].profile_id == id {
        assert(i == 0) by {
            if i > 0 {
                assert(s[0].profile_id != id);
            }
        }
    } else {
        assert(i >= 1);
        assert(s.drop_first()[i - 1] == s[i]);
        assert forall|k: int| 0 <= k < i - 1 implies s.drop_first()[k].profile_id != id by {
            assert(s.drop_first()[k] == s[k + 1]);
        }
        lemma_find_index_witness(s.drop_first(), id, i - 1);
    }
}

/// A full scan without a match refutes `find_index_by_id`.
pub proof fn lemma_find_index_none(s: Seq<ProfileView>, id: int)
    requires
        forall|k: int| 0 <= k < s.len() ==> s[k].profile_id != id,
    ensures
        find_index_by_id(s, id) is None,
    decreases s.len(),
{
    if s.len() > 0 {
        assert forall|k: int| 0 <= k < s.len() - 1 implies s.drop_first()[k].profile_id != id by {
            assert(s.drop_first()[k] == s[k + 1]);
        }
        lemma_find_index_none(s.drop_first(), id);
    }
}

/// The children of `s` with id `id` removed, order kept.
pub open spec fn remove_id_spec(s: Seq<ProfileView>, id: int) -> Seq<ProfileView>
    decreases s.len(),
{
    if s.len() == 0 {
        Seq::empty()
    } else if s.last().profile_id != id {
        remove_id_spec(s.drop_last(), id).push(s.last())
    } else {
        remove_id_spec(s.drop_last(), id)
    }
}

/// The last element of `s` whose own id is `id`.
pub open spec fn last_by_id(s: Seq<ProfileView>, id: int) -> Option<ProfileView>
    decreases s.len(),
{
    if s.len() == 0 {
        Option::None
    } else if s.last().profile_id == id {
        Option::Some(s.last())
    } else {
        last_by_id(s.drop_last(), id)
    }
}

/// Stable extraction and reinsertion: the element with id `id` is removed
/// and reinserted at position `k`, or appended when `k` is out of range.
/// Without a matching element the sequence is unchanged.
pub open spec fn reorder_spec(s: Seq<ProfileView>, id: int, k: int) -> Seq<ProfileView> {
    match last_by_id(s, id) {
        Option::None => s,
        Option::Some(t) => {
            let rest = remove_id_spec(s, id);
            if k < rest.len() {
                rest.insert(k, t)
            } else {
                rest.push(t)
            }
        },
    }
}

/// Replacement or insertion of a child: the first child sharing the new
/// profile's id is overwritten; otherwise the profile is appended under the
/// freshly allocated id `next_id`.
pub open spec fn replace_child_spec(s: Seq<ProfileView>, new: ProfileView, next_id: int) -> Seq<
    ProfileView,
> {
    match find_index_by_id(s, new.profile_id) {
        Option::Some(i) => s.update(i, new),
        Option::None => s.push(ProfileView { profile_id: next_id, ..new }),
    }
}

/// Deep copy of a profile subtree.
fn clone_profile(p: &MdxProfile) -> (r: MdxProfile)
    ensures
        r@ == p@,
    decreases *p,
{
    let profiles: Option<Vec<MdxProfile>> = match &p.profiles {
        Option::None => Option::None,
        Option::Some(v) => {
            let mut w: Vec<MdxProfile> = Vec::new();
            let mut i: usize = 0;
            while i < v.len()
                invariant
                    i <= v@.len(),
                    w@.len() == i,
                    p.profiles == Option::Some(*v),
                    forall|k: int| 0 <= k < i ==> #[trigger] profile_view(w@[k]) == profile_view(
                        v@[k],
                    ),
                decreases v@.len() - i,
            {
                proof {
                    assert(decreases_to!(*p => p.profiles));
                    assert(decreases_to!(p.profiles => p.profiles->Some_0));
                    assert(p.profiles->Some_0 == *v);
                    assert(decreases_to!(*v => v@));
                    assert(decreases_to!(v@ => v@[i as int]));
                }
                w.push(clone_profile(&v[i]));
                i = i + 1;
            }
            proof {
                lemma_views_of_vec(w@);
                lemma_views_of_vec(v@);
                assert(views_of_vec(w@) =~= views_of_vec(v@));
            }
            Option::Some(w)
        },
    };
    let r = MdxProfile {
        title: p.title.clone(),
        description: p.description.clone(),
        url: p.url.clone(),
        disabled: p.disabled,
        profile_id: p.profile_id,
        options: p.options.clone(),
        profiles,
        as_union: p.as_union,
    };
    assert(r@ =~= p@);
    r
}

impl Clone for MdxProfile {
    /// Clones preserve the whole subtree view.
    fn clone(&self) -> (r: Self)
        ensures
            r@ == self@,
    {
        clone_profile(self)
    }
}

impl MdxProfile {
    /// Whether this profile acts as a group.
    pub fn is_group(&self) -> (r: bool)
        ensures
            r == (self@.children is Some),
    {
        self.profiles.is_some()
    }

    /// The child list, if this profile is a group.
    pub fn get_profiles(&self) -> (r: Option<&Vec<MdxProfile>>)
        ensures
            match r {
                Option::Some(v) => self@.children == Option::Some(views_of_vec(v@)),
                Option::None => self@.children is None,
            },
    {
        self.profiles.as_ref()
    }

    /// The first child with the given id, if this profile is a group.
    pub fn get_profile(&self, profile_id: ProfileId) -> (r: Option<&MdxProfile>)
        ensures
            match r {
                Option::Some(p) => self@.children matches Option::Some(cs) && find_by_id(
                    cs,
                    profile_id as int,
                ) == Option::Some(p@),
                Option::None => match self@.children {
                    Option::Some(cs) => find_by_id(cs, profile_id as int) is None,
                    Option::None => true,
                },
            },
    {
        match &self.profiles {
            Option::None => Option::None,
            Option::Some(v) => {
                proof {
                    lemma_views_of_vec(v@);
                }
                let ghost cs = views_of_vec(v@);
                let mut i: usize = 0;
                while i < v.len()
                    invariant
                        i <= v@.len(),
                        self.profiles == Option::Some(*v),
                        cs == views_of_vec(v@),
                        cs.len() == v@.len(),
                        forall|k: int| 0 <= k < v@.len() ==> cs[k] == profile_view(v@[k]),
                        forall|k: int| 0 <= k < i ==> cs[k].profile_id != profile_id as int,
                    decreases v@.len() - i,
                {
                    if v[i].profile_id == profile_id {
                        proof {
                            lemma_find_index_witness(cs, profile_id as int, i as int);
                            assert(find_by_id(cs, profile_id as int) == Option::Some(
                                cs[i as int],
                            ));
                        }
                        return Option::Some(&v[i]);
                    }
                    i = i + 1;
                }
                proof {
                    lemma_find_index_none(cs, profile_id as int);
                }
                Option::None
            },
        }
    }

    /// Overwrites the first child sharing `mdx_profile`'s id, or appends a
    /// copy under the id `next_id`. A leaf becomes a group with that one
    /// child.
    pub fn replace_profile(&mut self, mdx_profile: &MdxProfile, next_id: ProfileId)
        ensures
            final(self)@ == (ProfileView {
                children: Option::Some(
                    replace_child_spec(
                        match old(self)@.children {
                            Option::Some(cs) => cs,
                            Option::None => Seq::empty(),
                        },
                        mdx_profile@,
                        next_id as int,
                    ),
                ),
                ..old(self)@
            }),
    {
        let ghost oldcs = match old(self)@.children {
            Option::Some(cs) => cs,
            Option::None => Seq::<ProfileView>::empty(),
        };
        let mut v: Vec<MdxProfile> = match self.profiles.take() {
            Option::Some(v0) => v0,
            Option::None => Vec::new(),
        };
        proof {
            lemma_views_of_vec(v@);
            assert(views_of_vec(v@) =~= oldcs);
        }
        let ghost cs = views_of_vec(v@);
        let mut found = false;
        let mut idx: usize = 0;
        let mut i: usize = 0;
        while i < v.len()
            invariant
                i <= v@.len(),
                cs == views_of_vec(v@),
                cs.len() == v@.len(),
                forall|k: int| 0 <= k < v@.len() ==> cs[k] == profile_view(v@[k]),
                found ==> idx < v@.len() && cs[idx as int].profile_id == mdx_profile@.profile_id
                    && forall|k: int|
                    0 <= k < idx ==> cs[k].profile_id != mdx_profile@.profile_id,
                !found ==> forall|k: int|
                    0 <= k < i ==> cs[k].profile_id != mdx_profile@.profile_id,
            decreases v@.len() - i,
        {
            if !found && v[i].profile_id == mdx_profile.profile_id {
                found = true;
                idx = i;
            }
            i = i + 1;
        }
        if found {
            proof {
                lemma_find_index_witness(cs, mdx_profile@.profile_id, idx as int);
            }
            let c = mdx_profile.clone();
            let ghost v0 = v@;
            v.remove(idx);
            v.insert(idx, c);
            proof {
                assert(v@ =~= v0.update(idx as int, c));
                lemma_views_of_vec(v@);
                assert(views_of_vec(v@) =~= cs.update(idx as int, mdx_profile@));
            }
        } else {
            proof {
                lemma_find_index_none(cs, mdx_profile@.profile_id);
            }
            let mut np = mdx_profile.clone();
            np.profile_id = next_id;
            assert(np@ == (ProfileView { profile_id: next_id as int, ..mdx_profile@ }));
            let ghost v0 = v@;
            v.push(np);
            proof {
                assert(v@.drop_last() =~= v0);
                lemma_views_of_vec(v@);
                assert(views_of_vec(v@) =~= cs.push(
                    ProfileView { profile_id: next_id as int, ..mdx_profile@ },
                ));
            }
        }
        let ghost newcs = views_of_vec(v@);
        self.profiles = Option::Some(v);
        proof {
            assert(newcs == replace_child_spec(oldcs, mdx_profile@, next_id as int));
            assert(self@ =~~= (ProfileView {
                children: Option::Some(replace_child_spec(oldcs, mdx_profile@, next_id as int)),
                ..old(self)@
            }));
        }
    }

    /// Moves the child with id `profile_id` to position `new_index`,
    /// keeping the order of the others; an out-of-range index appends.
    pub fn adjust_profile_order(&mut self, profile_id: ProfileId, new_index: usize)
        ensures
            old(self)@.children is None ==> final(self)@ == old(self)@,
            old(self)@.children matches Option::Some(cs) ==> final(self)@ == (ProfileView {
                children: Option::Some(reorder_spec(cs, profile_id as int, new_index as int)),
                ..old(self)@
            }),
    {
        if let Option::Some(v) = &self.profiles {
            proof {
                lemma_views_of_vec(v@);
            }
            let ghost cs = views_of_vec(v@);
            let mut rest: Vec<MdxProfile> = Vec::new();
            let mut target: Option<MdxProfile> = Option::None;
            let mut i: usize = 0;
            proof {
                assert(cs.take(0) =~= Seq::<ProfileView>::empty());
            }
            while i < v.len()
                invariant
                    i <= v@.len(),
                    cs == views_of_vec(v@),
                    cs.len() == v@.len(),
                    forall|k: int| 0 <= k < v@.len() ==> cs[k] == profile_view(v@[k]),
                    views_of_vec(rest@) == remove_id_spec(cs.take(i as int), profile_id as int),
                    match target {
                        Option::Some(t) => last_by_id(cs.take(i as int), profile_id as int)
                            == Option::Some(t@),
                        Option::None => last_by_id(cs.take(i as int), profile_id as int) is None,
                    },
                decreases v@.len() - i,
            {
                proof {
                    assert(cs.take(i + 1).drop_last() =~= cs.take(i as int));
                    assert(cs.take(i + 1).last() == cs[i as int]);
                }
                if v[i].profile_id != profile_id {
                    let ghost prev_rest = rest@;
                    rest.push(v[i].clone());
                    proof {
                        assert(rest@.drop_last() =~= prev_rest);
                        assert(views_of_vec(rest@) =~= remove_id_spec(
                            cs.take(i + 1),
                            profile_id as int,
                        ));
                    }
                } else {
                    target = Option::Some(v[i].clone());
                }
                i = i + 1;
            }
            proof {
                assert(cs.take(v@.len() as int) =~= cs);
            }
            if let Option::Some(t) = target {
                let ghost tv = t@;
                let ghost restv = views_of_vec(rest@);
                proof {
                    lemma_views_of_vec(rest@);
                }
                let ghost prev_rest = rest@;
                if new_index < rest.len() {
                    rest.insert(new_index, t);
                    proof {
                        lemma_views_of_vec(rest@);
                        lemma_views_of_vec(prev_rest);
                        assert(views_of_vec(rest@) =~= restv.insert(new_index as int, tv));
                    }
                } else {
                    rest.push(t);
                    proof {
                        assert(rest@.drop_last() =~= prev_rest);
                        assert(views_of_vec(rest@) =~= restv.push(tv));
                    }
                }
                let ghost newcs = views_of_vec(rest@);
                self.profiles = Option::Some(rest);
                proof {
                    assert(newcs == reorder_spec(cs, profile_id as int, new_index as int));
                    assert(self@ =~~= (ProfileView {
                        children: Option::Some(
                            reorder_spec(cs, profile_id as int, new_index as int),
                        ),
                        ..old(self)@
                    }));
                }
            } else {
                proof {
                    assert(reorder_spec(cs, profile_id as int, new_index as int) == cs);
                    assert(self@ =~~= (ProfileView {
                        children: Option::Some(
                            reorder_spec(cs, profile_id as int, new_index as int),
                        ),
                        ..old(self)@
                    }));
                }
            }
        }
    }

    /// Creates a group (empty child list, union flag set) when `is_group`
    /// holds, else a leaf whose title is derived from the url's file stem.
    pub fn new(title_or_url: String, profile_id: ProfileId, is_group: bool) -> (r: Self)
        ensures
            is_group ==> r@ == (ProfileView {
                title: title_or_url@,
                description: Seq::empty(),
                url: Seq::empty(),
                disabled: false,
                profile_id: profile_id as int,
                font_file_path: Seq::empty(),
                children: Option::Some(Seq::empty()),
                as_union: true,
            }),
            !is_group ==> r@ == (ProfileView {
                title: decoded_stem_of(title_or_url@),
                description: Seq::empty(),
                url: title_or_url@,
                disabled: false,
                profile_id: profile_id as int,
                font_file_path: Seq::empty(),
                children: Option::None,
                as_union: false,
            }),
    {
        if is_group {
            MdxProfile {
                title: title_or_url,
                description: String::new(),
                url: String::new(),
                disabled: false,
                profile_id,
                options: MdxOptions::default(),
                profiles: Option::Some(Vec::new()),
                as_union: true,
            }
        } else {
            let title = decoded_stem(title_or_url.as_str());
            MdxProfile {
                title,
                description: String::new(),
                url: title_or_url,
                disabled: false,
                profile_id,
                options: MdxOptions::default(),
                profiles: Option::None,
                as_union: false,
            }
        }
    }

    /// Creates a group profile.
    pub fn new_group(title: String, profile_id: ProfileId) -> (r: Self)
        ensures
            r@ == (ProfileView {
                title: title@,
                description: Seq::empty(),
                url: Seq::empty(),
                disabled: false,
                profile_id: profile_id as int,
                font_file_path: Seq::empty(),
                children: Option::Some(Seq::empty()),
                as_union: true,
            }),
    {
        Self::new(title, profile_id, true)
    }

    /// Creates a leaf profile with an explicit title.
    pub fn new_profile(title: String, url: String, profile_id: ProfileId) -> (r: Self)
        ensures
            r@ == (ProfileView {
                title: title@,
                description: Seq::empty(),
                url: url@,
                disabled: false,
                profile_id: profile_id as int,
                font_file_path: Seq::empty(),
                children: Option::None,
                as_union: false,
            }),
    {
        let mut profile = Self::new(url, profile_id, false);
        profile.title = title;
        profile
    }
}

} // verus!
