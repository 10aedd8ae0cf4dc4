//! The in-core model of one open dictionary source: the facts the search
//! logic reads (entry count, full-text availability, fetched index
//! records), with the reading of the dictionary file itself left to the
//! caller.

use vstd::prelude::*;
use crate::mdx_profile::MdxProfile;
use crate::mdx_profile::ProfileId;
use crate::mdx_profile::ProfileView;
use crate::text::char_is_alphabetic;
use crate::text::char_lowercase;
use crate::text::norm_of;

verus! {

pub type EntryNo = i64;

/// A dictionary-internal handle to one headword: the entry number and the
/// raw display key.
#[derive(Debug)]
pub struct KeyIndex {
    pub entry_no: EntryNo,
    pub key: String,
}

/// One index record, tagged with the profile it came from.
#[derive(Debug)]
pub struct MdxIndex {
    pub profile_id: ProfileId,
    pub key_index: KeyIndex,
}

/// Ghost projection of an index record.
#[verifier::ext_equal]
pub ghost struct IndexView {
    pub profile_id: int,
    pub entry_no: int,
    pub key: Seq<char>,
}

impl View for MdxIndex {
    type V = IndexView;

    open spec fn view(&self) -> IndexView {
        IndexView {
            profile_id: self.profile_id as int,
            entry_no: self.key_index.entry_no as int,
            key: self.key_index.key@,
        }
    }
}

impl Clone for KeyIndex {
    fn clone(&self) -> (r: Self)
        ensures
            r.entry_no == self.entry_no,
            r.key@ == self.key@,
    {
        KeyIndex { entry_no: self.entry_no, key: self.key.clone() }
    }
}

impl Clone for MdxIndex {
    fn clone(&self) -> (r: Self)
        ensures
            r@ == self@,
    {
        MdxIndex { profile_id: self.profile_id, key_index: self.key_index.clone() }
    }
}

/// The views of a sequence of index records, in order.
pub open spec fn index_views(s: Seq<MdxIndex>) -> Seq<IndexView>
    decreases s,
{
    if s.len() == 0 {
        Seq::empty()
    } else {
        index_views(s.drop_last()).push(s.last()@)
    }
}

/// `index_views` is the pointwise view.
pub proof fn lemma_index_views(s: Seq<MdxIndex>)
    ensures
        index_views(s).len() == s.len(),
        forall|i: int| 0 <= i < s.len() ==> index_views(s)[i] == s[i]@,
    decreases s.len(),
{
    if s.len() > 0 {
        lemma_index_views(s.drop_last());
    }
}

/// One open dictionary source as the search core sees it: its catalog
/// profile and the two facts lookups depend on.
pub struct MdxDb {
    pub profile: MdxProfile,
    pub entry_count: u64,
    pub fts_available: bool,
}

/// Ghost projection of an open dictionary.
#[verifier::ext_equal]
pub ghost struct DbView {
    pub profile: ProfileView,
    pub entry_count: int,
    pub fts_available: bool,
}

impl View for MdxDb {
    type V = DbView;

    open spec fn view(&self) -> DbView {
        DbView {
            profile: self.profile@,
            entry_count: self.entry_count as int,
            fts_available: self.fts_available,
        }
    }
}

impl MdxDb {
    /// Records an opened dictionary: its profile, its entry count and
    /// whether a full-text index is present.
    pub fn new(profile: MdxProfile, entry_count: u64, fts_available: bool) -> (r: Self)
        ensures
            r@ == (DbView {
                profile: profile@,
                entry_count: entry_count as int,
                fts_available: fts_available,
            }),
    {
        MdxDb { profile, entry_count, fts_available }
    }

    /// The number of entries in this dictionary.
    pub fn get_entry_count(&self) -> (r: u64)
        ensures
            r as int == self@.entry_count,
    {
        self.entry_count
    }

    /// Whether full-text search is available for this dictionary.
    pub fn is_fts_available(&self) -> (r: bool)
        ensures
            r == self@.fts_available,
    {
        self.fts_available
    }

    /// The case-folded, alphabetic-only projection of a keyword, used for
    /// cross-dictionary equality and ordering of headwords.
    pub fn normalize_keyword(keyword: &str) -> (r: String)
        ensures
            r@ == norm_of(keyword@),
    {
        let len = keyword.unicode_len();
        let mut out = String::new();
        let mut i: usize = 0;
        proof {
            assert(keyword@.take(0) =~= Seq::<char>::empty());
        }
        while i < len
            invariant
                i <= len,
                len == keyword@.len(),
                out@ == norm_of(keyword@.take(i as int)),
            decreases len - i,
        {
            let c = keyword.get_char(i);
            proof {
                assert(keyword@.take(i + 1).drop_last() =~= keyword@.take(i as int));
                assert(keyword@.take(i + 1).last() == keyword@[i as int]);
            }
            if char_is_alphabetic(c) {
                let lower = char_lowercase(c);
                out.append(lower.as_str());
            }
            i = i + 1;
        }
        proof {
            assert(keyword@.take(len as int) =~= keyword@);
        }
        out
    }
}

} // verus!
