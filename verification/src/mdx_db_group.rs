//! The merge engine: streams of index records fetched from the open
//! dictionaries of a union profile are merged into one ordered result set,
//! deduplicated by normalized key, with per-dictionary sub-lists ordered
//! by the group's configured profile order.

use vstd::prelude::*;
use crate::error::ZdbError;
use crate::mdx_db::DbView;
use crate::mdx_db::IndexView;
use crate::mdx_db::MdxDb;
use crate::mdx_db::MdxIndex;
use crate::mdx_db::index_views;
use crate::mdx_db::lemma_index_views;
use crate::mdx_profile::MdxProfile;
use crate::mdx_profile::ProfileId;
use crate::mdx_profile::ProfileView;
use crate::mdx_profile::profile_view;
use crate::mdx_profile::views_of_vec;
use crate::mdx_profile::lemma_views_of_vec;
use crate::text::norm_of;
use crate::text::seq_le;
use crate::text::seq_lt;
use crate::text::str_eq;
use crate::text::str_lt;
use crate::text::lemma_seq_lt_asym;
use crate::text::lemma_seq_lt_connex;
use crate::text::lemma_seq_lt_irrefl;
use crate::text::lemma_seq_lt_trans;

verus! {

broadcast use vstd::std_specs::vec::group_vec_axioms;

/// The records one dictionary contributed to one merged key: the ordered
/// index records of a single profile sharing that key.
#[derive(Debug)]
pub struct MdxGroupIndex {
    pub profile_id: ProfileId,
    pub primary_key: String,
    pub indexes: Vec<MdxIndex>,
}

/// Ghost projection of `MdxGroupIndex`.
#[verifier::ext_equal]
pub ghost struct GroupIndexView {
    pub profile_id: int,
    pub primary_key: Seq<char>,
    pub indexes: Seq<IndexView>,
}

impl View for MdxGroupIndex {
    type V = GroupIndexView;

    open spec fn view(&self) -> GroupIndexView {
        GroupIndexView {
            profile_id: self.profile_id as int,
            primary_key: self.primary_key@,
            indexes: index_views(self.indexes@),
        }
    }
}

/// The views of a sequence of per-dictionary groups, in order.
pub open spec fn group_index_views(s: Seq<MdxGroupIndex>) -> Seq<GroupIndexView>
    decreases s,
{
    if s.len() == 0 {
        Seq::empty()
    } else {
        group_index_views(s.drop_last()).push(s.last()@)
    }
}

/// `group_index_views` is the pointwise view.
pub proof fn lemma_group_index_views(s: Seq<MdxGroupIndex>)
    ensures
        group_index_views(s).len() == s.len(),
        forall|i: int| 0 <= i < s.len() ==> group_index_views(s)[i] == s[i]@,
    decreases s.len(),
{
    if s.len() > 0 {
        lemma_group_index_views(s.drop_last());
    }
}

/// One merged result: the normalized key, the first-seen display key, and
/// one `MdxGroupIndex` per contributing dictionary, ordered by the
/// group's profile order.
#[derive(Debug)]
pub struct MdxMergedKey {
    pub normalized_key: String,
    pub display_key: String,
    pub group_indexes: Vec<MdxGroupIndex>,
}

/// Ghost projection of `MdxMergedKey`.
#[verifier::ext_equal]
pub ghost struct MergedKeyView {
    pub normalized_key: Seq<char>,
    pub display_key: Seq<char>,
    pub groups: Seq<GroupIndexView>,
}

impl View for MdxMergedKey {
    type V = MergedKeyView;

    open spec fn view(&self) -> MergedKeyView {
        MergedKeyView {
            normalized_key: self.normalized_key@,
            display_key: self.display_key@,
            groups: group_index_views(self.group_indexes@),
        }
    }
}

/// The views of a sequence of merged results, in order.
pub open spec fn merged_key_views(s: Seq<MdxMergedKey>) -> Seq<MergedKeyView>
    decreases s,
{
    if s.len() == 0 {
        Seq::empty()
    } else {
        merged_key_views(s.drop_last()).push(s.last()@)
    }
}

/// `merged_key_views` is the pointwise view.
pub proof fn lemma_merged_key_views(s: Seq<MdxMergedKey>)
    ensures
        merged_key_views(s).len() == s.len(),
        forall|i: int| 0 <= i < s.len() ==> merged_key_views(s)[i] == s[i]@,
    decreases s.len(),
{
    if s.len() > 0 {
        lemma_merged_key_views(s.drop_last());
    }
}

/// The views of a sequence of open dictionaries, in order.
pub open spec fn db_views(s: Seq<MdxDb>) -> Seq<DbView>
    decreases s,
{
    if s.len() == 0 {
        Seq::empty()
    } else {
        db_views(s.drop_last()).push(s.last()@)
    }
}

/// `db_views` is the pointwise view.
pub proof fn lemma_db_views(s: Seq<MdxDb>)
    ensures
        db_views(s).len() == s.len(),
        forall|i: int| 0 <= i < s.len() ==> db_views(s)[i] == s[i]@,
    decreases s.len(),
{
    if s.len() > 0 {
        lemma_db_views(s.drop_last());
    }
}

/// The views of the fetched record batches, one per open dictionary.
pub open spec fn batch_views(s: Seq<Vec<MdxIndex>>) -> Seq<Seq<IndexView>>
    decreases s,
{
    if s.len() == 0 {
        Seq::empty()
    } else {
        batch_views(s.drop_last()).push(index_views(s.last()@))
    }
}

/// `batch_views` is the pointwise view.
pub proof fn lemma_batch_views(s: Seq<Vec<MdxIndex>>)
    ensures
        batch_views(s).len() == s.len(),
        forall|i: int| 0 <= i < s.len() ==> batch_views(s)[i] == index_views(s[i]@),
    decreases s.len(),
{
    if s.len() > 0 {
        lemma_batch_views(s.drop_last());
    }
}

/// Whether the dictionary at position `i` takes part in the merge: in
/// full-text mode only dictionaries with a full-text index do.
pub open spec fn included_db(dbs: Seq<DbView>, i: int, fts_only: bool) -> bool {
    fts_only ==> dbs[i].fts_available
}

/// The records of the participating batches, in batch order: the order
/// the merge processes them in.
pub open spec fn flat_records(dbs: Seq<DbView>, bs: Seq<Seq<IndexView>>, fts_only: bool) -> Seq<
    IndexView,
>
    decreases bs.len(),
{
    if bs.len() == 0 {
        Seq::empty()
    } else {
        flat_records(dbs, bs.drop_last(), fts_only) + (if included_db(
            dbs,
            bs.len() - 1,
            fts_only,
        ) {
            bs.last()
        } else {
            Seq::empty()
        })
    }
}

/// Whether a record survives the lower-bound cutoff: its normalized key
/// must not sort before the normalized query. Without a bound every
/// record passes.
pub open spec fn passes_lower(r: IndexView, lower: Option<Seq<char>>) -> bool {
    match lower {
        Option::Some(q) => seq_le(q, norm_of(r.key)),
        Option::None => true,
    }
}

/// Whether some surviving record normalizes to `k`.
pub open spec fn key_present(rs: Seq<IndexView>, lower: Option<Seq<char>>, k: Seq<char>) -> bool {
    exists|j: int|
        0 <= j < rs.len() && norm_of(#[trigger] rs[j].key) == k && passes_lower(rs[j], lower)
}

/// Whether some record normalizes to `k`, cutoff ignored.
pub open spec fn key_occurs(rs: Seq<IndexView>, k: Seq<char>) -> bool {
    exists|j: int| 0 <= j < rs.len() && norm_of(#[trigger] rs[j].key) == k
}

/// The raw key of the first record normalizing to `k`.
pub open spec fn first_display(rs: Seq<IndexView>, k: Seq<char>) -> Seq<char>
    decreases rs.len(),
{
    if rs.len() == 0 {
        Seq::empty()
    } else if norm_of(rs[0].key) == k {
        rs[0].key
    } else {
        first_display(rs.drop_first(), k)
    }
}

/// How appending one record changes presence and the first display key.
pub proof fn lemma_record_push(rs: Seq<IndexView>, r: IndexView, k: Seq<char>)
    ensures
        key_occurs(rs, k) ==> first_display(rs.push(r), k) == first_display(rs, k),
        !key_occurs(rs, k) && norm_of(r.key) == k ==> first_display(rs.push(r), k) == r.key,
        key_occurs(rs.push(r), k) <==> key_occurs(rs, k) || norm_of(r.key) == k,
        forall|lv: Option<Seq<char>>|
            #[trigger] key_present(rs.push(r), lv, k) <==> key_present(rs, lv, k) || (norm_of(
                r.key,
            ) == k && passes_lower(r, lv)),
    decreases rs.len(),
{
    let rsp = rs.push(r);
    assert(rsp.len() == rs.len() + 1);
    assert(rsp[rs.len() as int] == r);
    assert forall|j: int| 0 <= j < rs.len() implies rsp[j] == rs[j] by {}
    if rs.len() == 0 {
        assert(rsp[0] == r);
        if norm_of(r.key) == k {
            assert(first_display(rsp, k) == r.key);
        }
    } else {
        assert(rsp[0] == rs[0]);
        assert(rsp.drop_first() =~= rs.drop_first().push(r));
        lemma_record_push(rs.drop_first(), r, k);
        assert forall|j: int|
            0 <= j < rs.len() && norm_of(#[trigger] rs[j].key) == k implies key_occurs(
            rs.drop_first(),
            k,
        ) || norm_of(rs[0].key) == k by {
            if j > 0 {
                assert(rs.drop_first()[j - 1] == rs[j]);
            }
        }
        if key_occurs(rs, k) && norm_of(rs[0].key) != k {
            assert(key_occurs(rs.drop_first(), k));
        }
        if key_occurs(rs.drop_first(), k) {
            let j = choose|j: int|
                0 <= j < rs.drop_first().len() && norm_of(#[trigger] rs.drop_first()[j].key) == k;
            assert(rs[j + 1] == rs.drop_first()[j]);
            assert(key_occurs(rs, k));
        }
    }
    assert forall|lv: Option<Seq<char>>|
        #[trigger] key_present(rsp, lv, k) implies key_present(rs, lv, k) || (norm_of(r.key) == k
        && passes_lower(r, lv)) by {
        let j = choose|j: int|
            0 <= j < rsp.len() && norm_of(#[trigger] rsp[j].key) == k && passes_lower(rsp[j], lv);
        if j < rs.len() {
            assert(rs[j] == rsp[j]);
        }
    }
    assert forall|lv: Option<Seq<char>>|
        key_present(rs, lv, k) || (norm_of(r.key) == k && passes_lower(r, lv)) implies #[trigger]
    key_present(rsp, lv, k) by {
        if key_present(rs, lv, k) {
            let j = choose|j: int|
                0 <= j < rs.len() && norm_of(#[trigger] rs[j].key) == k && passes_lower(rs[j], lv);
            assert(rsp[j] == rs[j]);
        } else {
            assert(rsp[rs.len() as int] == r);
        }
    }
    if key_occurs(rsp, k) {
        let j = choose|j: int| 0 <= j < rsp.len() && norm_of(#[trigger] rsp[j].key) == k;
        if j < rs.len() {
            assert(rs[j] == rsp[j]);
            assert(key_occurs(rs, k));
        }
    }
    if key_occurs(rs, k) {
        let j = choose|j: int| 0 <= j < rs.len() && norm_of(#[trigger] rs[j].key) == k;
        assert(rsp[j] == rs[j]);
        assert(key_occurs(rsp, k));
    }
    if norm_of(r.key) == k {
        assert(rsp[rs.len() as int] == r);
        assert(key_occurs(rsp, k));
    }
}

/// The index of the first open dictionary with the given profile id.
pub open spec fn db_index_of(dbs: Seq<DbView>, pid: int) -> Option<int>
    decreases dbs.len(),
{
    if dbs.len() == 0 {
        Option::None
    } else if dbs[0].profile.profile_id == pid {
        Option::Some(0int)
    } else {
        match db_index_of(dbs.drop_first(), pid) {
            Option::Some(j) => Option::Some(j + 1),
            Option::None => Option::None,
        }
    }
}

/// A first-match witness determines `db_index_of`.
pub proof fn lemma_db_index_witness(dbs: Seq<DbView>, pid: int, i: int)
    requires
        0 <= i < dbs.len(),
        dbs[i].profile.profile_id == pid,
        forall|k: int| 0 <= k < i ==> dbs[k].profile.profile_id != pid,
    ensures
        db_index_of(dbs, pid) == Option::Some(i),
    decreases dbs.len(),
{
    if dbs[0].profile.profile_id == pid {
        assert(i == 0) by {
            if i > 0 {
                assert(dbs[0].profile.profile_id != pid);
            }
        }
    } else {
        assert(dbs.drop_first()[i - 1] == dbs[i]);
        assert forall|k: int| 0 <= k < i - 1 implies dbs.drop_first()[k].profile.profile_id
            != pid by {
            assert(dbs.drop_first()[k] == dbs[k + 1]);
        }
        lemma_db_index_witness(dbs.drop_first(), pid, i - 1);
    }
}

/// A full scan without a match refutes `db_index_of`.
pub proof fn lemma_db_index_none(dbs: Seq<DbView>, pid: int)
    requires
        forall|k: int| 0 <= k < dbs.len() ==> dbs[k].profile.profile_id != pid,
    ensures
        db_index_of(dbs, pid) is None,
    decreases dbs.len(),
{
    if dbs.len() > 0 {
        assert forall|k: int| 0 <= k < dbs.len() - 1 implies dbs.drop_first()[k].profile.profile_id
            != pid by {
            assert(dbs.drop_first()[k] == dbs[k + 1]);
        }
        lemma_db_index_none(dbs.drop_first(), pid);
    }
}

/// The records of one batch normalizing to `k`, in batch order.
pub open spec fn recs_with_key(b: Seq<IndexView>, k: Seq<char>) -> Seq<IndexView>
    decreases b.len(),
{
    if b.len() == 0 {
        Seq::empty()
    } else if norm_of(b.last().key) == k {
        recs_with_key(b.drop_last(), k).push(b.last())
    } else {
        recs_with_key(b.drop_last(), k)
    }
}

/// What one child profile contributes to the merged entry for key `k`:
/// its dictionary's matching records, if the child has an open (and, in
/// full-text mode, full-text-capable) dictionary and at least one record
/// normalizes to `k`.
pub open spec fn child_group(
    c: ProfileView,
    dbs: Seq<DbView>,
    bs: Seq<Seq<IndexView>>,
    k: Seq<char>,
    d: Seq<char>,
    fts_only: bool,
) -> Option<GroupIndexView> {
    match db_index_of(dbs, c.profile_id) {
        Option::Some(j) => if included_db(dbs, j, fts_only) && recs_with_key(bs[j], k).len() > 0 {
            Option::Some(
                GroupIndexView {
                    profile_id: c.profile_id,
                    primary_key: d,
                    indexes: recs_with_key(bs[j], k),
                },
            )
        } else {
            Option::None
        },
        Option::None => Option::None,
    }
}

/// The per-dictionary groups of one merged entry, ordered by the group's
/// profile order.
pub open spec fn groups_for(
    cs: Seq<ProfileView>,
    dbs: Seq<DbView>,
    bs: Seq<Seq<IndexView>>,
    k: Seq<char>,
    d: Seq<char>,
    fts_only: bool,
) -> Seq<GroupIndexView>
    decreases cs.len(),
{
    if cs.len() == 0 {
        Seq::empty()
    } else {
        groups_for(cs.drop_last(), dbs, bs, k, d, fts_only) + (match child_group(
            cs.last(),
            dbs,
            bs,
            k,
            d,
            fts_only,
        ) {
            Option::Some(g) => seq![g],
            Option::None => Seq::empty(),
        })
    }
}

/// Every batch record carries the profile id of the dictionary it was
/// fetched from.
pub open spec fn batches_tagged(dbs: Seq<DbView>, bs: Seq<Seq<IndexView>>) -> bool {
    bs.len() == dbs.len() && forall|i: int, j: int|
        0 <= i < bs.len() && 0 <= j < bs[i].len() ==> (#[trigger] bs[i][j]).profile_id
            == dbs[i].profile.profile_id
}

/// One collected key during the merge: the normalized key and the
/// first-seen display key.
struct KeyEntry {
    norm: String,
    display: String,
}

/// Ghost projection of `KeyEntry`.
#[verifier::ext_equal]
ghost struct KeyEntryView {
    norm: Seq<char>,
    display: Seq<char>,
}

impl View for KeyEntry {
    type V = KeyEntryView;

    closed spec fn view(&self) -> KeyEntryView {
        KeyEntryView { norm: self.norm@, display: self.display@ }
    }
}

/// The views of the collected keys, in order.
spec fn key_entry_views(s: Seq<KeyEntry>) -> Seq<KeyEntryView>
    decreases s,
{
    if s.len() == 0 {
        Seq::empty()
    } else {
        key_entry_views(s.drop_last()).push(s.last()@)
    }
}

/// `key_entry_views` is the pointwise view.
proof fn lemma_key_entry_views(s: Seq<KeyEntry>)
    ensures
        key_entry_views(s).len() == s.len(),
        forall|i: int| 0 <= i < s.len() ==> key_entry_views(s)[i] == s[i]@,
    decreases s.len(),
{
    if s.len() > 0 {
        lemma_key_entry_views(s.drop_last());
    }
}

/// Whether a normalized key is among the collected keys.
spec fn key_in_keys(kev: Seq<KeyEntryView>, k: Seq<char>) -> bool {
    exists|i: int| 0 <= i < kev.len() && (#[trigger] kev[i]).norm == k
}

/// Insertion preserves key membership.
proof fn lemma_key_in_keys_insert(kev: Seq<KeyEntryView>, p: int, e: KeyEntryView, k: Seq<char>)
    requires
        0 <= p <= kev.len(),
        key_in_keys(kev, k),
    ensures
        key_in_keys(kev.insert(p, e), k),
{
    let i = choose|i: int| 0 <= i < kev.len() && (#[trigger] kev[i]).norm == k;
    if i < p {
        assert(kev.insert(p, e)[i] == kev[i]);
    } else {
        assert(kev.insert(p, e)[i + 1] == kev[i]);
    }
}

/// A surviving key occurs.
proof fn lemma_present_occurs(rs: Seq<IndexView>, lv: Option<Seq<char>>, k: Seq<char>)
    ensures
        key_present(rs, lv, k) ==> key_occurs(rs, k),
{
    if key_present(rs, lv, k) {
        let j = choose|j: int|
            0 <= j < rs.len() && norm_of(#[trigger] rs[j].key) == k && passes_lower(rs[j], lv);
        assert(norm_of(rs[j].key) == k);
    }
}

/// What the key-collection pass guarantees over the processed records:
/// strictly ascending keys, each key surviving, every surviving key kept,
/// and each display key the first one seen.
spec fn collect_ok(
    kev: Seq<KeyEntryView>,
    rs: Seq<IndexView>,
    lv: Option<Seq<char>>,
) -> bool {
    &&& forall|i: int, j: int|
        0 <= i < j < kev.len() ==> seq_lt((#[trigger] kev[i]).norm, (#[trigger] kev[j]).norm)
    &&& forall|i: int| 0 <= i < kev.len() ==> key_present(rs, lv, (#[trigger] kev[i]).norm)
    &&& forall|j: int|
        0 <= j < rs.len() ==> key_in_keys(kev, norm_of((#[trigger] rs[j]).key)) || !passes_lower(
            rs[j],
            lv,
        )
    &&& forall|i: int|
        0 <= i < kev.len() ==> (#[trigger] kev[i]).display == first_display(rs, kev[i].norm)
}

/// The view of the optional lower bound.
pub open spec fn olower_view(lower: Option<&String>) -> Option<Seq<char>> {
    match lower {
        Option::Some(q) => Option::Some(q@),
        Option::None => Option::None,
    }
}

/// Collects the distinct normalized keys of the participating batches in
/// ascending order, dropping records whose key sorts before the bound.
fn collect_keys(
    dbs: &Vec<MdxDb>,
    batches: &Vec<Vec<MdxIndex>>,
    lower: Option<&String>,
    fts_only: bool,
) -> (r: Vec<KeyEntry>)
    requires
        batches@.len() == dbs@.len(),
    ensures
        collect_ok(
            key_entry_views(r@),
            flat_records(db_views(dbs@), batch_views(batches@), fts_only),
            olower_view(lower),
        ),
{
    let ghost dbsv = db_views(dbs@);
    let ghost bsv = batch_views(batches@);
    let ghost lv = olower_view(lower);
    proof {
        lemma_db_views(dbs@);
        lemma_batch_views(batches@);
        assert(bsv.take(0) =~= Seq::<Seq<IndexView>>::empty());
    }
    let mut keys: Vec<KeyEntry> = Vec::new();
    let mut bi: usize = 0;
    while bi < batches.len()
        invariant
            bi <= batches@.len(),
            batches@.len() == dbs@.len(),
            dbsv == db_views(dbs@),
            dbsv.len() == dbs@.len(),
            forall|x: int| 0 <= x < dbs@.len() ==> dbsv[x] == dbs@[x]@,
            bsv == batch_views(batches@),
            bsv.len() == batches@.len(),
            forall|x: int| 0 <= x < batches@.len() ==> bsv[x] == index_views(batches@[x]@),
            lv == olower_view(lower),
            collect_ok(
                key_entry_views(keys@),
                flat_records(dbsv, bsv.take(bi as int), fts_only),
                lv,
            ),
        decreases batches@.len() - bi,
    {
        let included = if fts_only {
            dbs[bi].is_fts_available()
        } else {
            true
        };
        let ghost rs_done = flat_records(dbsv, bsv.take(bi as int), fts_only);
        if included {
            let batch = &batches[bi];
            proof {
                lemma_index_views(batch@);
                assert(bsv[bi as int] == index_views(batch@));
                assert(bsv[bi as int].take(0) =~= Seq::<IndexView>::empty());
                assert(rs_done + bsv[bi as int].take(0) =~= rs_done);
            }
            let mut rj: usize = 0;
            while rj < batch.len()
                invariant
                    rj <= batch@.len(),
                    bi < batches@.len(),
                    included_db(dbsv, bi as int, fts_only),
                    lv == olower_view(lower),
                    rs_done == flat_records(dbsv, bsv.take(bi as int), fts_only),
                    bsv[bi as int] == index_views(batch@),
                    bsv[bi as int].len() == batch@.len(),
                    forall|x: int| 0 <= x < batch@.len() ==> bsv[bi as int][x] == batch@[x]@,
                    collect_ok(
                        key_entry_views(keys@),
                        rs_done + bsv[bi as int].take(rj as int),
                        lv,
                    ),
                decreases batch@.len() - rj,
            {
                let ghost rs_cur = rs_done + bsv[bi as int].take(rj as int);
                let rec = &batch[rj];
                let nk = MdxDb::normalize_keyword(rec.key_index.key.as_str());
                let ghost recv = batch@[rj as int]@;
                proof {
                    assert(bsv[bi as int].take(rj + 1).drop_last() =~= bsv[bi as int].take(
                        rj as int,
                    ));
                    assert(bsv[bi as int].take(rj + 1).last() == bsv[bi as int][rj as int]);
                    assert(rs_done + bsv[bi as int].take(rj + 1) =~= rs_cur.push(recv));
                    assert(recv.key == rec.key_index.key@);
                    assert(nk@ == norm_of(recv.key));
                }
                let pass = match lower {
                    Option::Some(q) => !str_lt(nk.as_str(), q.as_str()),
                    Option::None => true,
                };
                proof {
                    match lv {
                        Option::Some(qv) => {
                            lemma_seq_lt_connex(nk@, qv);
                            lemma_seq_lt_asym(nk@, qv);
                            lemma_seq_lt_irrefl(qv);
                            assert(pass == passes_lower(recv, lv));
                        },
                        Option::None => {
                            assert(pass == passes_lower(recv, lv));
                        },
                    }
                }
                let ghost kev = key_entry_views(keys@);
                proof {
                    lemma_key_entry_views(keys@);
                }
                if pass {
                    let mut p: usize = 0;
                    while p < keys.len() && str_lt(keys[p].norm.as_str(), nk.as_str())
                        invariant
                            p <= keys@.len(),
                            kev == key_entry_views(keys@),
                            kev.len() == keys@.len(),
                            forall|x: int| 0 <= x < keys@.len() ==> kev[x] == keys@[x]@,
                            forall|x: int| 0 <= x < p ==> seq_lt((#[trigger] kev[x]).norm, nk@),
                        decreases keys@.len() - p,
                    {
                        p = p + 1;
                    }
                    let found_eq = p < keys.len() && str_eq(keys[p].norm.as_str(), nk.as_str());
                    if found_eq {
                        proof {
                            assert(kev[p as int].norm == nk@);
                            assert forall|i: int|
                                0 <= i < kev.len() implies key_present(
                                rs_cur.push(recv),
                                lv,
                                (#[trigger] kev[i]).norm,
                            ) by {
                                lemma_record_push(rs_cur, recv, kev[i].norm);
                            }
                            assert forall|j: int|
                                0 <= j < rs_cur.push(recv).len() implies key_in_keys(
                                kev,
                                norm_of((#[trigger] rs_cur.push(recv)[j]).key),
                            ) || !passes_lower(rs_cur.push(recv)[j], lv) by {
                                if j < rs_cur.len() {
                                    assert(rs_cur.push(recv)[j] == rs_cur[j]);
                                } else {
                                    assert(rs_cur.push(recv)[j] == recv);
                                    assert(kev[p as int].norm == norm_of(recv.key));
                                }
                            }
                            assert forall|i: int|
                                0 <= i < kev.len() implies (#[trigger] kev[i]).display
                                == first_display(rs_cur.push(recv), kev[i].norm) by {
                                lemma_present_occurs(rs_cur, lv, kev[i].norm);
                                lemma_record_push(rs_cur, recv, kev[i].norm);
                            }
                            assert(collect_ok(kev, rs_cur.push(recv), lv));
                        }
                    } else {
                        proof {
                            assert forall|x: int| 0 <= x < kev.len() implies (#[trigger] kev[x]).norm
                                != nk@ by {
                                if x < p {
                                    lemma_seq_lt_irrefl(nk@);
                                } else if x == p {
                                    lemma_seq_lt_connex(kev[x].norm, nk@);
                                    lemma_seq_lt_irrefl(nk@);
                                } else {
                                    lemma_seq_lt_connex(kev[p as int].norm, nk@);
                                    lemma_seq_lt_trans(nk@, kev[p as int].norm, kev[x].norm);
                                    lemma_seq_lt_irrefl(nk@);
                                }
                            }
                        }
                        let e = KeyEntry { norm: nk, display: rec.key_index.key.clone() };
                        let ghost ev = e@;
                        let ghost keys0 = keys@;
                        keys.insert(p, e);
                        proof {
                            lemma_key_entry_views(keys@);
                            let kev2 = key_entry_views(keys@);
                            assert(keys@ == keys0.insert(p as int, e));
                            assert forall|x: int|
                                0 <= x < kev2.len() implies kev2[x] == (if x < p {
                                kev[x]
                            } else if x == p {
                                ev
                            } else {
                                kev[x - 1]
                            }) by {
                                if x < p {
                                    assert(keys@[x] == keys0[x]);
                                } else if x == p {
                                    assert(keys@[x] == e);
                                } else {
                                    assert(keys@[x] == keys0[x - 1]);
                                }
                            }
                            assert(kev2 =~= kev.insert(p as int, ev));
                            // Order is kept.
                            assert forall|i: int, j: int|
                                0 <= i < j < kev2.len() implies seq_lt(
                                (#[trigger] kev2[i]).norm,
                                (#[trigger] kev2[j]).norm,
                            ) by {
                                if i < p && j == p {
                                } else if i == p && j > p {
                                    lemma_seq_lt_connex(kev[p as int].norm, nk@);
                                    if j - 1 > p {
                                        lemma_seq_lt_trans(
                                            nk@,
                                            kev[p as int].norm,
                                            kev[j - 1].norm,
                                        );
                                    }
                                } else if i < p && j > p {
                                    if i < j - 1 {
                                    } else {
                                    }
                                }
                            }
                            // Every kept key survives among the new records.
                            assert(key_present(rs_cur.push(recv), lv, nk@)) by {
                                assert(rs_cur.push(recv)[rs_cur.len() as int] == recv);
                            }
                            assert forall|i: int|
                                0 <= i < kev2.len() implies key_present(
                                rs_cur.push(recv),
                                lv,
                                (#[trigger] kev2[i]).norm,
                            ) by {
                                if i != p {
                                    let xo: int = if i < p {
                                        i
                                    } else {
                                        i - 1
                                    };
                                    assert(kev2[i] == kev[xo]);
                                    lemma_record_push(rs_cur, recv, kev[xo].norm);
                                } else {
                                    assert(kev2[i].norm == nk@);
                                }
                            }
                            // Every surviving record key is kept.
                            assert forall|j: int|
                                0 <= j < rs_cur.push(recv).len() implies key_in_keys(
                                kev2,
                                norm_of((#[trigger] rs_cur.push(recv)[j]).key),
                            ) || !passes_lower(rs_cur.push(recv)[j], lv) by {
                                if j < rs_cur.len() {
                                    assert(rs_cur.push(recv)[j] == rs_cur[j]);
                                    if passes_lower(rs_cur[j], lv) {
                                        lemma_key_in_keys_insert(
                                            kev,
                                            p as int,
                                            ev,
                                            norm_of(rs_cur[j].key),
                                        );
                                    }
                                } else {
                                    assert(rs_cur.push(recv)[j] == recv);
                                    assert(kev2[p as int].norm == norm_of(recv.key));
                                }
                            }
                            // The new key was absent before.
                            assert(!key_occurs(rs_cur, nk@)) by {
                                if key_occurs(rs_cur, nk@) {
                                    let j = choose|j: int|
                                        0 <= j < rs_cur.len() && norm_of(
                                            (#[trigger] rs_cur[j]).key,
                                        ) == nk@;
                                    assert(passes_lower(rs_cur[j], lv) == passes_lower(recv, lv));
                                    assert(key_present(rs_cur, lv, nk@));
                                    assert(key_in_keys(kev, nk@));
                                    let x = choose|x: int|
                                        0 <= x < kev.len() && (#[trigger] kev[x]).norm == nk@;
                                }
                            }
                            // Display keys are the first seen.
                            assert forall|i: int|
                                0 <= i < kev2.len() implies (#[trigger] kev2[i]).display
                                == first_display(rs_cur.push(recv), kev2[i].norm) by {
                                if i == p {
                                    lemma_record_push(rs_cur, recv, nk@);
                                } else {
                                    let xo: int = if i < p {
                                        i
                                    } else {
                                        i - 1
                                    };
                                    assert(kev2[i] == kev[xo]);
                                    lemma_present_occurs(rs_cur, lv, kev[xo].norm);
                                    lemma_record_push(rs_cur, recv, kev[xo].norm);
                                }
                            }
                            assert(collect_ok(kev2, rs_cur.push(recv), lv));
                        }
                    }
                } else {
                    proof {
                        assert forall|i: int|
                            0 <= i < kev.len() implies key_present(
                            rs_cur.push(recv),
                            lv,
                            (#[trigger] kev[i]).norm,
                        ) by {
                            lemma_record_push(rs_cur, recv, kev[i].norm);
                        }
                        assert forall|j: int|
                            0 <= j < rs_cur.push(recv).len() implies key_in_keys(
                            kev,
                            norm_of((#[trigger] rs_cur.push(recv)[j]).key),
                        ) || !passes_lower(rs_cur.push(recv)[j], lv) by {
                            if j < rs_cur.len() {
                                assert(rs_cur.push(recv)[j] == rs_cur[j]);
                            } else {
                                assert(rs_cur.push(recv)[j] == recv);
                            }
                        }
                        assert forall|i: int|
                            0 <= i < kev.len() implies (#[trigger] kev[i]).display == first_display(
                            rs_cur.push(recv),
                            kev[i].norm,
                        ) by {
                            lemma_present_occurs(rs_cur, lv, kev[i].norm);
                            lemma_record_push(rs_cur, recv, kev[i].norm);
                        }
                        assert(collect_ok(kev, rs_cur.push(recv), lv));
                    }
                }
                rj = rj + 1;
            }
            proof {
                assert(bsv[bi as int].take(batch@.len() as int) =~= bsv[bi as int]);
                assert(bsv.take(bi + 1).drop_last() =~= bsv.take(bi as int));
                assert(bsv.take(bi + 1).last() == bsv[bi as int]);
                assert(flat_records(dbsv, bsv.take(bi + 1), fts_only) =~= rs_done + bsv[bi as int]);
            }
        } else {
            proof {
                assert(bsv.take(bi + 1).drop_last() =~= bsv.take(bi as int));
                assert(bsv.take(bi + 1).last() == bsv[bi as int]);
                assert(flat_records(dbsv, bsv.take(bi + 1), fts_only) =~= rs_done);
            }
        }
        bi = bi + 1;
    }
    proof {
        assert(bsv.take(batches@.len() as int) =~= bsv);
    }
    keys
}


/// The enabled children of a group, in profile order: the profiles whose
/// dictionaries a union opens.
pub open spec fn enabled_children(cs: Seq<ProfileView>) -> Seq<ProfileView>
    decreases cs.len(),
{
    if cs.len() == 0 {
        Seq::empty()
    } else if !cs.last().disabled {
        enabled_children(cs.drop_last()).push(cs.last())
    } else {
        enabled_children(cs.drop_last())
    }
}

/// Copies of the enabled children of a group profile, in order: the
/// profiles whose dictionaries have to be opened for a union search.
pub fn enabled_profiles(profile: &MdxProfile) -> (r: Vec<MdxProfile>)
    ensures
        views_of_vec(r@) == (match profile@.children {
            Option::Some(cs) => enabled_children(cs),
            Option::None => Seq::<ProfileView>::empty(),
        }),
{
    let mut r: Vec<MdxProfile> = Vec::new();
    match profile.get_profiles() {
        Option::None => (),
        Option::Some(v) => {
            proof {
                lemma_views_of_vec(v@);
            }
            let ghost cs = views_of_vec(v@);
            let mut i: usize = 0;
            proof {
                assert(cs.take(0) =~= Seq::<ProfileView>::empty());
            }
            while i < v.len()
                invariant
                    i <= v@.len(),
                    cs == views_of_vec(v@),
                    cs.len() == v@.len(),
                    forall|x: int| 0 <= x < v@.len() ==> cs[x] == profile_view(v@[x]),
                    views_of_vec(r@) == enabled_children(cs.take(i as int)),
                decreases v@.len() - i,
            {
                proof {
                    assert(cs.take(i + 1).drop_last() =~= cs.take(i as int));
                    assert(cs.take(i + 1).last() == cs[i as int]);
                }
                if !v[i].disabled {
                    let ghost r0 = r@;
                    r.push(v[i].clone());
                    proof {
                        assert(r@.drop_last() =~= r0);
                        assert(views_of_vec(r@) =~= enabled_children(cs.take(i + 1)));
                    }
                }
                i = i + 1;
            }
            proof {
                assert(cs.take(cs.len() as int) =~= cs);
            }
        },
    }
    r
}

/// Builds the merged entries for the collected keys: one entry per key,
/// each with the per-dictionary record groups in profile order.
fn build_results(
    profile: &MdxProfile,
    dbs: &Vec<MdxDb>,
    batches: &Vec<Vec<MdxIndex>>,
    keys: &Vec<KeyEntry>,
    fts_only: bool,
) -> (r: Vec<MdxMergedKey>)
    requires
        profile@.children is Some,
        batches@.len() == dbs@.len(),
    ensures
        r@.len() == keys@.len(),
        forall|i: int|
            0 <= i < r@.len() ==> merged_key_views(r@)[i] == (MergedKeyView {
                normalized_key: key_entry_views(keys@)[i].norm,
                display_key: key_entry_views(keys@)[i].display,
                groups: groups_for(
                    profile@.children->Some_0,
                    db_views(dbs@),
                    batch_views(batches@),
                    key_entry_views(keys@)[i].norm,
                    key_entry_views(keys@)[i].display,
                    fts_only,
                ),
            }),
{
    let ghost dbsv = db_views(dbs@);
    let ghost bsv = batch_views(batches@);
    let ghost kev = key_entry_views(keys@);
    proof {
        lemma_db_views(dbs@);
        lemma_batch_views(batches@);
        lemma_key_entry_views(keys@);
    }
    let children: &Vec<MdxProfile> = match profile.get_profiles() {
        Option::Some(v) => v,
        Option::None => {
            proof {
                assert(false);
            }
            unreached()
        },
    };
    proof {
        lemma_views_of_vec(children@);
    }
    let ghost csv = views_of_vec(children@);
    let mut out: Vec<MdxMergedKey> = Vec::new();
    let mut ki: usize = 0;
    while ki < keys.len()
        invariant
            ki <= keys@.len(),
            batches@.len() == dbs@.len(),
            dbsv == db_views(dbs@),
            dbsv.len() == dbs@.len(),
            forall|x: int| 0 <= x < dbs@.len() ==> dbsv[x] == dbs@[x]@,
            bsv == batch_views(batches@),
            bsv.len() == batches@.len(),
            forall|x: int| 0 <= x < batches@.len() ==> bsv[x] == index_views(batches@[x]@),
            kev == key_entry_views(keys@),
            kev.len() == keys@.len(),
            forall|x: int| 0 <= x < keys@.len() ==> kev[x] == keys@[x]@,
            csv == views_of_vec(children@),
            csv.len() == children@.len(),
            forall|x: int| 0 <= x < children@.len() ==> csv[x] == profile_view(children@[x]),
            profile@.children == Option::Some(csv),
            out@.len() == ki,
            forall|x: int|
                0 <= x < ki ==> merged_key_views(out@)[x] == (MergedKeyView {
                    normalized_key: kev[x].norm,
                    display_key: kev[x].display,
                    groups: groups_for(csv, dbsv, bsv, kev[x].norm, kev[x].display, fts_only),
                }),
        decreases keys@.len() - ki,
    {
        let ghost k = kev[ki as int].norm;
        let ghost d = kev[ki as int].display;
        let mut groups: Vec<MdxGroupIndex> = Vec::new();
        let mut ci: usize = 0;
        proof {
            lemma_merged_key_views(out@);
            assert(csv.take(0) =~= Seq::<ProfileView>::empty());
        }
        while ci < children.len()
            invariant
                ci <= children@.len(),
                batches@.len() == dbs@.len(),
                dbsv == db_views(dbs@),
                dbsv.len() == dbs@.len(),
                forall|x: int| 0 <= x < dbs@.len() ==> dbsv[x] == dbs@[x]@,
                bsv == batch_views(batches@),
                bsv.len() == batches@.len(),
                forall|x: int| 0 <= x < batches@.len() ==> bsv[x] == index_views(batches@[x]@),
                csv == views_of_vec(children@),
                csv.len() == children@.len(),
                forall|x: int| 0 <= x < children@.len() ==> csv[x] == profile_view(children@[x]),
                k == kev[ki as int].norm,
                d == kev[ki as int].display,
                ki < keys@.len(),
                kev.len() == keys@.len(),
                forall|x: int| 0 <= x < keys@.len() ==> kev[x] == keys@[x]@,
                kev == key_entry_views(keys@),
                group_index_views(groups@) == groups_for(
                    csv.take(ci as int),
                    dbsv,
                    bsv,
                    k,
                    d,
                    fts_only,
                ),
            decreases children@.len() - ci,
        {
            proof {
                assert(csv.take(ci + 1).drop_last() =~= csv.take(ci as int));
                assert(csv.take(ci + 1).last() == csv[ci as int]);
            }
            let pid = children[ci].profile_id;
            let ghost cv = csv[ci as int];
            let mut dj: usize = 0;
            let mut found_db = false;
            let mut dbi: usize = 0;
            while dj < dbs.len()
                invariant
                    dj <= dbs@.len(),
                    dbsv.len() == dbs@.len(),
                    forall|x: int| 0 <= x < dbs@.len() ==> dbsv[x] == dbs@[x]@,
                    pid as int == cv.profile_id,
                    found_db ==> dbi < dbs@.len() && dbsv[dbi as int].profile.profile_id
                        == pid as int && forall|x: int|
                        0 <= x < dbi ==> dbsv[x].profile.profile_id != pid as int,
                    !found_db ==> forall|x: int|
                        0 <= x < dj ==> dbsv[x].profile.profile_id != pid as int,
                decreases dbs@.len() - dj,
            {
                if !found_db && dbs[dj].profile.profile_id == pid {
                    found_db = true;
                    dbi = dj;
                }
                dj = dj + 1;
            }
            let ghost g0 = groups@;
            if found_db {
                proof {
                    lemma_db_index_witness(dbsv, pid as int, dbi as int);
                }
                let incl = if fts_only {
                    dbs[dbi].is_fts_available()
                } else {
                    true
                };
                if incl {
                    let batch = &batches[dbi];
                    proof {
                        lemma_index_views(batch@);
                        assert(bsv[dbi as int] == index_views(batch@));
                        assert(bsv[dbi as int].take(0) =~= Seq::<IndexView>::empty());
                    }
                    let key_norm = &keys[ki].norm;
                    let mut recs: Vec<MdxIndex> = Vec::new();
                    let mut x: usize = 0;
                    while x < batch.len()
                        invariant
                            x <= batch@.len(),
                            k == kev[ki as int].norm,
                            ki < keys@.len(),
                            kev == key_entry_views(keys@),
                            kev.len() == keys@.len(),
                            forall|y: int| 0 <= y < keys@.len() ==> kev[y] == keys@[y]@,
                            key_norm@ == k,
                            bsv[dbi as int].len() == batch@.len(),
                            forall|y: int| 0 <= y < batch@.len() ==> bsv[dbi as int][y]
                                == batch@[y]@,
                            index_views(recs@) == recs_with_key(
                                bsv[dbi as int].take(x as int),
                                k,
                            ),
                        decreases batch@.len() - x,
                    {
                        proof {
                            assert(bsv[dbi as int].take(x + 1).drop_last() =~= bsv[
                                dbi as int].take(x as int));
                            assert(bsv[dbi as int].take(x + 1).last() == bsv[dbi as int][
                                x as int]);
                        }
                        let nk2 = MdxDb::normalize_keyword(batch[x].key_index.key.as_str());
                        if str_eq(nk2.as_str(), key_norm.as_str()) {
                            let ghost r0 = recs@;
                            recs.push(batch[x].clone());
                            proof {
                                assert(recs@.drop_last() =~= r0);
                                assert(index_views(recs@) =~= recs_with_key(
                                    bsv[dbi as int].take(x + 1),
                                    k,
                                ));
                            }
                        }
                        x = x + 1;
                    }
                    proof {
                        assert(bsv[dbi as int].take(batch@.len() as int) =~= bsv[dbi as int]);
                        lemma_index_views(recs@);
                    }
                    if recs.len() > 0 {
                        let gi = MdxGroupIndex {
                            profile_id: pid,
                            primary_key: keys[ki].display.clone(),
                            indexes: recs,
                        };
                        let ghost giv = gi@;
                        groups.push(gi);
                        proof {
                            assert(groups@.drop_last() =~= g0);
                            assert(giv =~~= child_group(cv, dbsv, bsv, k, d, fts_only)->Some_0);
                            assert(group_index_views(groups@) =~= groups_for(
                                csv.take(ci + 1),
                                dbsv,
                                bsv,
                                k,
                                d,
                                fts_only,
                            ));
                        }
                    } else {
                        proof {
                            assert(child_group(cv, dbsv, bsv, k, d, fts_only) is None);
                            assert(group_index_views(groups@) =~= groups_for(
                                csv.take(ci + 1),
                                dbsv,
                                bsv,
                                k,
                                d,
                                fts_only,
                            ));
                        }
                    }
                } else {
                    proof {
                        assert(child_group(cv, dbsv, bsv, k, d, fts_only) is None);
                        assert(group_index_views(groups@) =~= groups_for(
                            csv.take(ci + 1),
                            dbsv,
                            bsv,
                            k,
                            d,
                            fts_only,
                        ));
                    }
                }
            } else {
                proof {
                    lemma_db_index_none(dbsv, pid as int);
                    assert(child_group(cv, dbsv, bsv, k, d, fts_only) is None);
                    assert(group_index_views(groups@) =~= groups_for(
                        csv.take(ci + 1),
                        dbsv,
                        bsv,
                        k,
                        d,
                        fts_only,
                    ));
                }
            }
            ci = ci + 1;
        }
        proof {
            assert(csv.take(csv.len() as int) =~= csv);
        }
        let entry = MdxMergedKey {
            normalized_key: keys[ki].norm.clone(),
            display_key: keys[ki].display.clone(),
            group_indexes: groups,
        };
        let ghost entryv = entry@;
        let ghost out0 = out@;
        out.push(entry);
        proof {
            assert(out@.drop_last() =~= out0);
            lemma_merged_key_views(out@);
            lemma_merged_key_views(out0);
            assert(entryv =~~= (MergedKeyView {
                normalized_key: kev[ki as int].norm,
                display_key: kev[ki as int].display,
                groups: groups_for(csv, dbsv, bsv, k, d, fts_only),
            }));
            assert forall|x: int|
                0 <= x < ki + 1 implies merged_key_views(out@)[x] == (MergedKeyView {
                normalized_key: kev[x].norm,
                display_key: kev[x].display,
                groups: groups_for(csv, dbsv, bsv, kev[x].norm, kev[x].display, fts_only),
            }) by {
                if x < ki {
                    assert(merged_key_views(out@)[x] == merged_key_views(out0)[x]);
                }
            }
        }
        ki = ki + 1;
    }
    out
}

/// The merge contract: the result holds one entry per surviving
/// normalized key, in strictly ascending key order, bounded by `limit`
/// when one is given — the keys kept are then the smallest ones — with
/// the first-seen display key and the per-dictionary record groups of
/// each key.
pub open spec fn merge_result_ok(
    kv: Seq<MergedKeyView>,
    cs: Seq<ProfileView>,
    dbs: Seq<DbView>,
    bs: Seq<Seq<IndexView>>,
    lower: Option<Seq<char>>,
    limit: Option<int>,
    fts_only: bool,
) -> bool {
    let rs = flat_records(dbs, bs, fts_only);
    &&& match limit {
        Option::Some(l) => kv.len() <= l,
        Option::None => true,
    }
    &&& forall|i: int, j: int|
        0 <= i < j < kv.len() ==> seq_lt(
            #[trigger] kv[i].normalized_key,
            #[trigger] kv[j].normalized_key,
        )
    &&& forall|i: int|
        0 <= i < kv.len() ==> key_present(rs, lower, (#[trigger] kv[i]).normalized_key)
    &&& forall|k: Seq<char>|
        #[trigger] key_present(rs, lower, k) ==> (exists|i: int|
            0 <= i < kv.len() && (#[trigger] kv[i]).normalized_key == k) || (match limit {
            Option::Some(l) => kv.len() == l && forall|i: int|
                0 <= i < kv.len() ==> seq_lt((#[trigger] kv[i]).normalized_key, k),
            Option::None => false,
        })
    &&& forall|i: int|
        0 <= i < kv.len() ==> (#[trigger] kv[i]).display_key == first_display(
            rs,
            kv[i].normalized_key,
        )
    &&& forall|i: int|
        0 <= i < kv.len() ==> (#[trigger] kv[i]).groups == groups_for(
            cs,
            dbs,
            bs,
            kv[i].normalized_key,
            kv[i].display_key,
            fts_only,
        )
}


/// A union profile's open dictionary set: the group profile and one open
/// dictionary per enabled child, in profile order.
pub struct MdxDbGroup {
    pub profile: MdxProfile,
    pub mdx_dbs: Vec<MdxDb>,
}

/// Ghost projection of `MdxDbGroup`.
#[verifier::ext_equal]
pub ghost struct DbGroupView {
    pub profile: ProfileView,
    pub dbs: Seq<DbView>,
}

impl View for MdxDbGroup {
    type V = DbGroupView;

    open spec fn view(&self) -> DbGroupView {
        DbGroupView { profile: self.profile@, dbs: db_views(self.mdx_dbs@) }
    }
}

impl MdxDbGroup {
    /// A group is well-formed when its profile carries a child list.
    pub open spec fn wf(&self) -> bool {
        self@.profile.children is Some
    }

    /// Assembles the open dictionary set of a union profile. The caller
    /// opens one dictionary per enabled child, in profile order, and
    /// hands them in. Fails with invalid-parameter for a profile that is
    /// not a union group.
    pub fn new(profile: &MdxProfile, dbs: Vec<MdxDb>) -> (r: Result<MdxDbGroup, ZdbError>)
        requires
            (profile@.as_union && profile@.children is Some) ==> ({
                let enabled = enabled_children(profile@.children->Some_0);
                db_views(dbs@).len() == enabled.len() && forall|i: int|
                    0 <= i < enabled.len() ==> (#[trigger] db_views(dbs@)[i]).profile.profile_id
                        == enabled[i].profile_id
            }),
        ensures
            match r {
                Result::Ok(g) => profile@.as_union && profile@.children is Some && g@.profile
                    == profile@ && g@.dbs == db_views(dbs@) && g.wf(),
                Result::Err(e) => (!profile@.as_union || profile@.children is None) && e
                    == ZdbError::InvalidParameter,
            },
    {
        if !profile.as_union || profile.get_profiles().is_none() {
            return Result::Err(ZdbError::InvalidParameter);
        }
        Result::Ok(MdxDbGroup { profile: profile.clone(), mdx_dbs: dbs })
    }

    /// Whether any open dictionary of the group supports full-text
    /// search.
    pub fn is_fts_available(&self) -> (r: bool)
        ensures
            r == exists|i: int| 0 <= i < self@.dbs.len() && (#[trigger] self@.dbs[i]).fts_available,
    {
        proof {
            lemma_db_views(self.mdx_dbs@);
        }
        let ghost dbsv = self@.dbs;
        let mut i: usize = 0;
        while i < self.mdx_dbs.len()
            invariant
                i <= self.mdx_dbs@.len(),
                dbsv == db_views(self.mdx_dbs@),
                dbsv.len() == self.mdx_dbs@.len(),
                forall|x: int| 0 <= x < self.mdx_dbs@.len() ==> dbsv[x] == self.mdx_dbs@[x]@,
                forall|x: int| 0 <= x < i ==> !(#[trigger] dbsv[x]).fts_available,
            decreases self.mdx_dbs@.len() - i,
        {
            if self.mdx_dbs[i].is_fts_available() {
                proof {
                    assert((self@.dbs[i as int]).fts_available);
                }
                return true;
            }
            i = i + 1;
        }
        false
    }

    /// The incremental merge: every batch holds the records one
    /// dictionary fetched after the query's anchor, capped by
    /// `max_results_per_lib`; the result keeps the smallest
    /// `max_results_per_lib` distinct normalized keys that do not sort
    /// before the normalized query, each with its first-seen display key
    /// and its per-dictionary record groups in profile order.
    pub fn find_best_match_indexes(
        &self,
        query: &str,
        max_results_per_lib: usize,
        batches: &Vec<Vec<MdxIndex>>,
    ) -> (r: Vec<MdxMergedKey>)
        requires
            self.wf(),
            batches@.len() == self.mdx_dbs@.len(),
        ensures
            merge_result_ok(
                merged_key_views(r@),
                self@.profile.children->Some_0,
                self@.dbs,
                batch_views(batches@),
                Option::Some(norm_of(query@)),
                Option::Some(max_results_per_lib as int),
                false,
            ),
    {
        let normalized_query = MdxDb::normalize_keyword(query);
        let mut keys = collect_keys(&self.mdx_dbs, batches, Option::Some(&normalized_query), false);
        let ghost kev_full = key_entry_views(keys@);
        let ghost rs = flat_records(db_views(self.mdx_dbs@), batch_views(batches@), false);
        let ghost lv = Option::Some(norm_of(query@));
        proof {
            lemma_key_entry_views(keys@);
        }
        let ghost keys0 = keys@;
        keys.truncate(max_results_per_lib);
        proof {
            lemma_key_entry_views(keys@);
            if max_results_per_lib <= keys0.len() {
                assert(keys@ == keys0.subrange(0, max_results_per_lib as int));
            } else {
                assert(keys@ == keys0);
            }
            assert forall|x: int| 0 <= x < keys@.len() implies key_entry_views(keys@)[x]
                == kev_full[x] by {
                assert(keys@[x] == keys0[x]);
            }
        }
        let r = build_results(&self.profile, &self.mdx_dbs, batches, &keys, false);
        proof {
            let kv = merged_key_views(r@);
            let kev = key_entry_views(keys@);
            lemma_merged_key_views(r@);
            lemma_key_entry_views(keys@);
            lemma_truncated_merge_ok(
                kv,
                kev,
                kev_full,
                self@.profile.children->Some_0,
                self@.dbs,
                batch_views(batches@),
                lv,
                max_results_per_lib as int,
                false,
            );
        }
        r
    }

    /// The full-text merge: every batch holds one full-text-capable
    /// dictionary's capped result list in its own relevance order;
    /// batches of dictionaries without full-text support are ignored. The
    /// whole merged set is returned, ordered by ascending normalized key,
    /// with no lower-bound cutoff.
    pub fn fulltext_find(
        &self,
        query: &str,
        max_results_per_lib: usize,
        batches: &Vec<Vec<MdxIndex>>,
    ) -> (r: Vec<MdxMergedKey>)
        requires
            self.wf(),
            batches@.len() == self.mdx_dbs@.len(),
        ensures
            merge_result_ok(
                merged_key_views(r@),
                self@.profile.children->Some_0,
                self@.dbs,
                batch_views(batches@),
                Option::None,
                Option::None,
                true,
            ),
    {
        let keys = collect_keys(&self.mdx_dbs, batches, Option::None, true);
        let r = build_results(&self.profile, &self.mdx_dbs, batches, &keys, true);
        proof {
            let kv = merged_key_views(r@);
            let kev = key_entry_views(keys@);
            lemma_merged_key_views(r@);
            lemma_key_entry_views(keys@);
            let rs = flat_records(db_views(self.mdx_dbs@), batch_views(batches@), true);
            assert forall|k: Seq<char>| #[trigger] key_present(rs, Option::<Seq<char>>::None, k)
                implies exists|i: int|
                0 <= i < kv.len() && (#[trigger] kv[i]).normalized_key == k by {
                let j = choose|j: int|
                    0 <= j < rs.len() && norm_of(#[trigger] rs[j].key) == k && passes_lower(
                        rs[j],
                        Option::<Seq<char>>::None,
                    );
                assert(key_in_keys(kev, norm_of(rs[j].key)) || !passes_lower(
                    rs[j],
                    Option::<Seq<char>>::None,
                ));
                let x = choose|x: int| 0 <= x < kev.len() && (#[trigger] kev[x]).norm == k;
                assert(kv[x].normalized_key == k);
            }
        }
        r
    }
}

/// Truncation to the smallest keys preserves the merge contract.
proof fn lemma_truncated_merge_ok(
    kv: Seq<MergedKeyView>,
    kev: Seq<KeyEntryView>,
    kev_full: Seq<KeyEntryView>,
    cs: Seq<ProfileView>,
    dbs: Seq<DbView>,
    bs: Seq<Seq<IndexView>>,
    lv: Option<Seq<char>>,
    limit: int,
    fts_only: bool,
)
    requires
        0 <= limit,
        collect_ok(kev_full, flat_records(dbs, bs, fts_only), lv),
        kev.len() == (if limit <= kev_full.len() {
            limit
        } else {
            kev_full.len() as int
        }),
        forall|x: int| 0 <= x < kev.len() ==> kev[x] == kev_full[x],
        kv.len() == kev.len(),
        forall|i: int|
            0 <= i < kv.len() ==> kv[i] == (MergedKeyView {
                normalized_key: kev[i].norm,
                display_key: kev[i].display,
                groups: groups_for(cs, dbs, bs, kev[i].norm, kev[i].display, fts_only),
            }),
    ensures
        merge_result_ok(kv, cs, dbs, bs, lv, Option::Some(limit), fts_only),
{
    let rs = flat_records(dbs, bs, fts_only);
    assert forall|k: Seq<char>| #[trigger] key_present(rs, lv, k) implies (exists|i: int|
        0 <= i < kv.len() && (#[trigger] kv[i]).normalized_key == k) || (kv.len() == limit
        && forall|i: int| 0 <= i < kv.len() ==> seq_lt((#[trigger] kv[i]).normalized_key, k)) by {
        let j = choose|j: int|
            0 <= j < rs.len() && norm_of(#[trigger] rs[j].key) == k && passes_lower(rs[j], lv);
        assert(key_in_keys(kev_full, norm_of(rs[j].key)) || !passes_lower(rs[j], lv));
        let x = choose|x: int| 0 <= x < kev_full.len() && (#[trigger] kev_full[x]).norm == k;
        if x < kev.len() {
            assert(kv[x].normalized_key == k);
        } else {
            assert(kev.len() == limit);
            assert forall|i: int| 0 <= i < kv.len() implies seq_lt(
                (#[trigger] kv[i]).normalized_key,
                k,
            ) by {
                assert(kev_full[i].norm == kv[i].normalized_key);
                assert(seq_lt(kev_full[i].norm, kev_full[x].norm));
            }
        }
    }
}


impl Clone for MdxGroupIndex {
    /// Clones preserve the view.
    fn clone(&self) -> (r: Self)
        ensures
            r@ == self@,
    {
        let mut indexes: Vec<MdxIndex> = Vec::new();
        let mut i: usize = 0;
        while i < self.indexes.len()
            invariant
                i <= self.indexes@.len(),
                indexes@.len() == i,
                forall|k: int| 0 <= k < i ==> (#[trigger] indexes@[k])@ == self.indexes@[k]@,
            decreases self.indexes@.len() - i,
        {
            indexes.push(self.indexes[i].clone());
            i = i + 1;
        }
        let r = MdxGroupIndex {
            profile_id: self.profile_id,
            primary_key: self.primary_key.clone(),
            indexes,
        };
        proof {
            lemma_index_views(r.indexes@);
            lemma_index_views(self.indexes@);
            assert(index_views(r.indexes@) =~= index_views(self.indexes@));
            assert(r@ =~~= self@);
        }
        r
    }
}

impl Clone for MdxMergedKey {
    /// Clones preserve the view.
    fn clone(&self) -> (r: Self)
        ensures
            r@ == self@,
    {
        let mut group_indexes: Vec<MdxGroupIndex> = Vec::new();
        let mut i: usize = 0;
        while i < self.group_indexes.len()
            invariant
                i <= self.group_indexes@.len(),
                group_indexes@.len() == i,
                forall|k: int| 0 <= k < i ==> (#[trigger] group_indexes@[k])@
                    == self.group_indexes@[k]@,
            decreases self.group_indexes@.len() - i,
        {
            group_indexes.push(self.group_indexes[i].clone());
            i = i + 1;
        }
        let r = MdxMergedKey {
            normalized_key: self.normalized_key.clone(),
            display_key: self.display_key.clone(),
            group_indexes,
        };
        proof {
            lemma_group_index_views(r.group_indexes@);
            lemma_group_index_views(self.group_indexes@);
            assert(group_index_views(r.group_indexes@) =~= group_index_views(
                self.group_indexes@,
            ));
            assert(r@ =~~= self@);
        }
        r
    }
}

} // verus!
