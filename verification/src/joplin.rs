//! The hierarchy index over the flat folder and note records, with the path
//! resolver and the subtree collector.
//!
//! `JoplinData` owns the full folder list and note list of one snapshot.
//! `get_path_folder` derives the root-first ancestor chain of a folder by
//! repeated parent lookups, bounded by the record count; `lookup_folder` and
//! `look_for_children_folders` collect the subtree below a folder; and
//! `get_notes_of_folder` lists the notes of one folder in input order.

use vstd::prelude::*;

use crate::errors::CoreError;
use crate::textops::{dec_str, push_decimal};

verus! {

/// A note record of the snapshot: its id, the id of the folder that holds
/// it, and its display title.
#[derive(Debug, PartialEq)]
pub struct NotesArray {
    pub id: String,
    pub parent_id: String,
    pub title: String,
}

impl Clone for NotesArray {
    /// A field-for-field copy, equal to the original.
    fn clone(&self) -> (r: Self)
        ensures
            r == *self,
    {
        NotesArray { id: self.id.clone(), parent_id: self.parent_id.clone(), title: self.title.clone() }
    }
}

/// One page of notes as the snapshot delivers it.
#[derive(Debug, PartialEq)]
pub struct NotesGet {
    pub items: Vec<NotesArray>,
    pub has_more: bool,
}

/// A folder record of the snapshot: its id, its parent's id (empty for a
/// collection root), and its display title.
#[derive(Debug, PartialEq)]
pub struct FoldersArray {
    pub id: String,
    pub parent_id: String,
    pub title: String,
}

impl Clone for FoldersArray {
    /// A field-for-field copy, equal to the original.
    fn clone(&self) -> (r: Self)
        ensures
            r == *self,
    {
        FoldersArray { id: self.id.clone(), parent_id: self.parent_id.clone(), title: self.title.clone() }
    }
}

/// One page of folders as the snapshot delivers it.
#[derive(Debug, PartialEq)]
pub struct FoldersGet {
    pub items: Vec<FoldersArray>,
    pub has_more: bool,
}

/// The in-memory index: the access token suffix for requests, and the full
/// flat folder and note lists of the snapshot. Read-only after construction.
#[derive(Debug, PartialEq)]
pub struct JoplinData {
    pub token_string: String,
    pub dir_list: Vec<FoldersArray>,
    pub notes_list: Vec<NotesArray>,
}

/// One entry of a resolved path: a title and the id it belongs to.
#[derive(Debug, PartialEq)]
pub struct MinimumFolder {
    pub title: String,
    pub id: String,
}

impl Clone for MinimumFolder {
    /// A field-for-field copy, equal to the original.
    fn clone(&self) -> (r: Self)
        ensures
            r == *self,
    {
        MinimumFolder { title: self.title.clone(), id: self.id.clone() }
    }
}

/// The model of a path entry: the views of its title and id.
#[verifier::ext_equal]
pub struct PathEntryView {
    pub title: Seq<char>,
    pub id: Seq<char>,
}

/// The models of a sequence of path entries.
pub open spec fn entries_view(s: Seq<MinimumFolder>) -> Seq<PathEntryView> {
    Seq::new(s.len(), |i: int| PathEntryView { title: s[i].title@, id: s[i].id@ })
}

/// The index of the first record of `records` whose id is `id`, or -1.
pub open spec fn find_folder(records: Seq<FoldersArray>, id: Seq<char>) -> int
    decreases records.len(),
{
    if records.len() == 0 {
        -1
    } else if records[0].id@ == id {
        0
    } else {
        let r = find_folder(records.skip(1), id);
        if r < 0 {
            -1
        } else {
            r + 1
        }
    }
}

/// What `find_folder` returns: the least matching index, or -1.
pub proof fn lemma_find_folder(records: Seq<FoldersArray>, id: Seq<char>)
    ensures
        find_folder(records, id) == -1 || 0 <= find_folder(records, id) < records.len(),
        find_folder(records, id) == -1 ==> forall|i: int|
            0 <= i < records.len() ==> records[i].id@ != id,
        find_folder(records, id) >= 0 ==> records[find_folder(records, id)].id@ == id,
        find_folder(records, id) >= 0 ==> forall|i: int|
            0 <= i < find_folder(records, id) ==> records[i].id@ != id,
    decreases records.len(),
{
    if records.len() == 0 {
    } else if records[0].id@ == id {
    } else {
        lemma_find_folder(records.skip(1), id);
        assert(forall|i: int|
            1 <= i < records.len() ==> records[i] == records.skip(1)[i - 1]);
    }
}

/// `find_folder` at a known first match.
pub proof fn lemma_find_folder_is(records: Seq<FoldersArray>, id: Seq<char>, i: int)
    requires
        0 <= i < records.len(),
        records[i].id@ == id,
        forall|j: int| 0 <= j < i ==> records[j].id@ != id,
    ensures
        find_folder(records, id) == i,
{
    lemma_find_folder(records, id);
    let r = find_folder(records, id);
    if r == -1 {
        assert(records[i].id@ != id);
    } else if r < i {
        assert(records[r].id@ != id);
    } else if r > i {
        assert(records[i].id@ != id);
    }
}

/// The index of the first record of `records` whose id equals `id`, if any.
fn position_of_id(records: &Vec<FoldersArray>, id: &String) -> (r: Option<usize>)
    ensures
        match r {
            Some(i) => i < records@.len() && find_folder(records@, id@) == i as int,
            None => find_folder(records@, id@) == -1,
        },
{
    let mut k: usize = 0;
    while k < records.len()
        invariant
            k <= records@.len(),
            forall|j: int| 0 <= j < k ==> records@[j].id@ != id@,
        decreases records@.len() - k,
    {
        if records[k].id == *id {
            proof {
                lemma_find_folder_is(records@, id@, k as int);
            }
            return Some(k);
        }
        k += 1;
    }
    proof {
        lemma_find_folder(records@, id@);
    }
    None
}

/// The path resolver, on the model: walk from `id` towards the collection
/// root by repeated parent lookups, and return the root-first entry chain.
///
/// A missing id fails with `NotFound`. `fuel` bounds the number of parent
/// steps; exhausting it fails with `CycleDetected`. With fuel at least the
/// record count, an acyclic snapshot never exhausts it.
pub open spec fn resolve_spec(
    records: Seq<FoldersArray>,
    id: Seq<char>,
    fuel: nat,
) -> Result<Seq<PathEntryView>, CoreError>
    decreases fuel,
{
    let k = find_folder(records, id);
    if k < 0 {
        Err(CoreError::NotFound)
    } else {
        let rec = records[k];
        let entry = PathEntryView { title: rec.title@, id: rec.id@ };
        if rec.parent_id@.len() == 0 {
            Ok(seq![entry])
        } else if fuel == 0 {
            Err(CoreError::CycleDetected)
        } else {
            match resolve_spec(records, rec.parent_id@, (fuel - 1) as nat) {
                Ok(p) => Ok(p.push(entry)),
                Err(e) => Err(e),
            }
        }
    }
}

/// Some record of `s` has the id `id`.
pub open spec fn id_in(s: Seq<FoldersArray>, id: Seq<char>) -> bool {
    exists|i: int| 0 <= i < s.len() && s[i].id@ == id
}

/// No two records of `s` share an id.
pub open spec fn unique_ids(s: Seq<FoldersArray>) -> bool {
    forall|i: int, j: int| 0 <= i < j < s.len() ==> s[i].id@ != s[j].id@
}

/// `rec` is one of the records of `records`.
pub open spec fn record_in(records: Seq<FoldersArray>, rec: FoldersArray) -> bool {
    exists|i: int| 0 <= i < records.len() && records[i] == rec
}

/// `chain` is a parent-pointer chain of records of `records`, leading from a
/// child of the folder id `root` down to `rec`.
pub open spec fn chain_connects(
    records: Seq<FoldersArray>,
    root: Seq<char>,
    chain: Seq<FoldersArray>,
    rec: FoldersArray,
) -> bool {
    &&& chain.len() > 0
    &&& chain.last() == rec
    &&& chain[0].parent_id@ == root
    &&& forall|k: int| 0 <= k < chain.len() ==> record_in(records, #[trigger] chain[k])
    &&& forall|k: int| 1 <= k < chain.len() ==> (#[trigger] chain[k]).parent_id@ == chain[k
        - 1].id@
}

/// `rec` is reachable from the folder id `root` by following child links.
pub open spec fn is_descendant_of(
    records: Seq<FoldersArray>,
    root: Seq<char>,
    rec: FoldersArray,
) -> bool {
    exists|chain: Seq<FoldersArray>| chain_connects(records, root, chain, rec)
}

/// Every record of `records` whose parent is `rec` has its id in `storage`.
pub open spec fn children_collected(
    records: Seq<FoldersArray>,
    storage: Seq<FoldersArray>,
    rec: FoldersArray,
) -> bool {
    forall|j: int|
        0 <= j < records.len() && (#[trigger] records[j]).parent_id@ == rec.id@ ==> id_in(
            storage,
            records[j].id@,
        )
}

/// Whether some record of `storage` has the id `id`.
fn contains_id(storage: &Vec<FoldersArray>, id: &String) -> (r: bool)
    ensures
        r == id_in(storage@, id@),
{
    let mut k: usize = 0;
    while k < storage.len()
        invariant
            k <= storage@.len(),
            forall|j: int| 0 <= j < k ==> storage@[j].id@ != id@,
        decreases storage@.len() - k,
    {
        if storage[k].id == *id {
            return true;
        }
        k += 1;
    }
    false
}

/// The number of records of `records` whose id does not occur in `storage`.
pub open spec fn count_new(records: Seq<FoldersArray>, storage: Seq<FoldersArray>) -> nat
    decreases records.len(),
{
    if records.len() == 0 {
        0
    } else {
        count_new(records.drop_last(), storage) + if id_in(storage, records.last().id@) {
            0nat
        } else {
            1nat
        }
    }
}

/// The subtree collector, on the model: scan `records` from position `idx`;
/// a record whose parent is `root` and whose id is not yet collected is
/// appended and its own subtree is collected at once, before the scan goes
/// on — depth-first pre-order, children in input order, repeated ids
/// skipped. `fuel` bounds the nesting depth; the record count always
/// suffices, since every level appends a record with a new id.
pub open spec fn collect_from(
    records: Seq<FoldersArray>,
    storage: Seq<FoldersArray>,
    root: Seq<char>,
    idx: int,
    fuel: nat,
) -> Seq<FoldersArray>
    decreases fuel, records.len() - idx,
{
    if idx < 0 || idx >= records.len() {
        storage
    } else {
        let rec = records[idx];
        if rec.parent_id@ == root && !id_in(storage, rec.id@) && fuel > 0 {
            let with_sub = collect_from(
                records,
                storage.push(rec),
                rec.id@,
                0,
                (fuel - 1) as nat,
            );
            collect_from(records, with_sub, root, idx + 1, fuel)
        } else {
            collect_from(records, storage, root, idx + 1, fuel)
        }
    }
}

proof fn lemma_count_new_le(records: Seq<FoldersArray>, storage: Seq<FoldersArray>)
    ensures
        count_new(records, storage) <= records.len(),
    decreases records.len(),
{
    if records.len() > 0 {
        lemma_count_new_le(records.drop_last(), storage);
    }
}

/// A record with an uncollected id makes `count_new` positive.
proof fn lemma_count_new_pos(records: Seq<FoldersArray>, storage: Seq<FoldersArray>, i: int)
    requires
        0 <= i < records.len(),
        !id_in(storage, records[i].id@),
    ensures
        count_new(records, storage) >= 1,
    decreases records.len(),
{
    if i < records.len() - 1 {
        assert(records.drop_last()[i] == records[i]);
        lemma_count_new_pos(records.drop_last(), storage, i);
    }
}

/// Collecting a record never raises `count_new`, and strictly lowers it
/// when the record's id occurs in `records` and was not collected before.
proof fn lemma_count_new_push(
    records: Seq<FoldersArray>,
    storage: Seq<FoldersArray>,
    rec: FoldersArray,
)
    ensures
        count_new(records, storage.push(rec)) <= count_new(records, storage),
        (exists|i: int| 0 <= i < records.len() && records[i].id@ == rec.id@) && !id_in(
            storage,
            rec.id@,
        ) ==> count_new(records, storage.push(rec)) < count_new(records, storage),
    decreases records.len(),
{
    if records.len() > 0 {
        let sub = records.drop_last();
        let last_id = records.last().id@;
        if id_in(storage, last_id) {
            let w = choose|w: int| 0 <= w < storage.len() && storage[w].id@ == last_id;
            assert(storage.push(rec)[w].id@ == last_id);
        }
        if (exists|i: int| 0 <= i < records.len() && records[i].id@ == rec.id@) && !id_in(
            storage,
            rec.id@,
        ) {
            let i = choose|i: int| 0 <= i < records.len() && records[i].id@ == rec.id@;
            if i == records.len() - 1 {
                lemma_count_new_push(sub, storage, rec);
                assert(storage.push(rec)[storage.len() as int].id@ == last_id);
                assert(id_in(storage.push(rec), last_id));
            } else {
                assert(sub[i] == records[i]);
                lemma_count_new_push(sub, storage, rec);
            }
        } else {
            lemma_count_new_push(sub, storage, rec);
        }
    }
}

/// Extending the collection can only lower `count_new`.
proof fn lemma_count_new_prefix(
    records: Seq<FoldersArray>,
    s1: Seq<FoldersArray>,
    s2: Seq<FoldersArray>,
)
    requires
        s1.is_prefix_of(s2),
    ensures
        count_new(records, s2) <= count_new(records, s1),
    decreases records.len(),
{
    if records.len() > 0 {
        lemma_count_new_prefix(records.drop_last(), s1, s2);
        if id_in(s1, records.last().id@) {
            lemma_id_in_prefix(s1, s2, records.last().id@);
        }
    }
}

proof fn lemma_prefix_trans(a: Seq<FoldersArray>, b: Seq<FoldersArray>, c: Seq<FoldersArray>)
    requires
        a.is_prefix_of(b),
        b.is_prefix_of(c),
    ensures
        a.is_prefix_of(c),
{
    assert(forall|k: int| 0 <= k < a.len() ==> a[k] == b[k]);
    assert(forall|k: int| 0 <= k < b.len() ==> b[k] == c[k]);
    assert(a =~= c.subrange(0, a.len() as int));
}

/// The model traversal only appends: its input is a prefix of its output.
proof fn lemma_collect_extends(
    records: Seq<FoldersArray>,
    storage: Seq<FoldersArray>,
    root: Seq<char>,
    idx: int,
    fuel: nat,
)
    ensures
        storage.is_prefix_of(collect_from(records, storage, root, idx, fuel)),
    decreases fuel, records.len() - idx,
{
    if 0 <= idx < records.len() {
        let rec = records[idx];
        if rec.parent_id@ == root && !id_in(storage, rec.id@) && fuel > 0 {
            let pushed = storage.push(rec);
            lemma_collect_extends(records, pushed, rec.id@, 0, (fuel - 1) as nat);
            let with_sub = collect_from(records, pushed, rec.id@, 0, (fuel - 1) as nat);
            lemma_collect_extends(records, with_sub, root, idx + 1, fuel);
            assert(storage.is_prefix_of(pushed)) by {
                assert(storage =~= pushed.subrange(0, storage.len() as int));
            }
            lemma_prefix_trans(storage, pushed, with_sub);
            lemma_prefix_trans(
                storage,
                with_sub,
                collect_from(records, with_sub, root, idx + 1, fuel),
            );
        } else {
            lemma_collect_extends(records, storage, root, idx + 1, fuel);
        }
    }
}

/// Any fuel at least `count_new` gives the same traversal: the fuel is a
/// bound, not part of the behaviour.
proof fn lemma_collect_fuel(
    records: Seq<FoldersArray>,
    storage: Seq<FoldersArray>,
    root: Seq<char>,
    idx: int,
    fuel1: nat,
    fuel2: nat,
)
    requires
        fuel1 >= count_new(records, storage),
        fuel2 >= count_new(records, storage),
    ensures
        collect_from(records, storage, root, idx, fuel1) == collect_from(
            records,
            storage,
            root,
            idx,
            fuel2,
        ),
    decreases fuel1, records.len() - idx,
{
    if 0 <= idx < records.len() {
        let rec = records[idx];
        if rec.parent_id@ == root && !id_in(storage, rec.id@) {
            lemma_count_new_pos(records, storage, idx);
            let pushed = storage.push(rec);
            lemma_count_new_push(records, storage, rec);
            lemma_collect_fuel(
                records,
                pushed,
                rec.id@,
                0,
                (fuel1 - 1) as nat,
                (fuel2 - 1) as nat,
            );
            let with_sub = collect_from(records, pushed, rec.id@, 0, (fuel1 - 1) as nat);
            lemma_collect_extends(records, pushed, rec.id@, 0, (fuel1 - 1) as nat);
            lemma_count_new_prefix(records, pushed, with_sub);
            lemma_collect_fuel(records, with_sub, root, idx + 1, fuel1, fuel2);
        } else {
            lemma_collect_fuel(records, storage, root, idx + 1, fuel1, fuel2);
        }
    }
}

/// A sequence of records with pairwise distinct ids, each of which occurs in
/// `records`, cannot be longer than `records`.
proof fn lemma_storage_bound(storage: Seq<FoldersArray>, records: Seq<FoldersArray>)
    requires
        unique_ids(storage),
        forall|k: int| 0 <= k < storage.len() ==> record_in(records, #[trigger] storage[k]),
    ensures
        storage.len() <= records.len(),
    decreases storage.len(),
{
    if storage.len() > 0 {
        let sub = storage.drop_last();
        let last = storage.last();
        let w = choose|i: int| 0 <= i < records.len() && records[i] == last;
        let records2 = records.remove(w);
        assert forall|k: int| 0 <= k < sub.len() implies record_in(
            records2,
            #[trigger] sub[k],
        ) by {
            let v = choose|i: int| 0 <= i < records.len() && records[i] == sub[k];
            assert(sub[k] == storage[k]);
            assert(storage[k].id@ != last.id@);
            assert(v != w);
            if v < w {
                assert(records2[v] == records[v]);
            } else {
                assert(records2[v - 1] == records[v]);
            }
        }
        lemma_storage_bound(sub, records2);
    }
}

/// Membership of an id survives extension of the sequence.
proof fn lemma_id_in_prefix(s1: Seq<FoldersArray>, s2: Seq<FoldersArray>, id: Seq<char>)
    requires
        s1.is_prefix_of(s2),
        id_in(s1, id),
    ensures
        id_in(s2, id),
{
    let i = choose|i: int| 0 <= i < s1.len() && s1[i].id@ == id;
    assert(s2[i].id@ == id);
}

/// A descendant of a child folder is a descendant of the folder above it.
proof fn lemma_descendant_step(
    records: Seq<FoldersArray>,
    root: Seq<char>,
    f: FoldersArray,
    x: FoldersArray,
)
    requires
        record_in(records, f),
        f.parent_id@ == root,
        is_descendant_of(records, f.id@, x),
    ensures
        is_descendant_of(records, root, x),
{
    let chain = choose|chain: Seq<FoldersArray>| chain_connects(records, f.id@, chain, x);
    let chain2 = seq![f] + chain;
    assert(chain2.last() == chain.last());
    assert(chain2[0] == f);
    assert(forall|k: int| 1 <= k < chain2.len() ==> chain2[k] == chain[k - 1]);
    assert(chain_connects(records, root, chain2, x));
}

/// Walking one chain: if `storage` holds every direct child of `root` and is
/// closed under direct children of its entries, it holds the end of any
/// parent-pointer chain that starts below `root`.
proof fn lemma_chain_collected(
    records: Seq<FoldersArray>,
    storage: Seq<FoldersArray>,
    root: Seq<char>,
    chain: Seq<FoldersArray>,
    x: FoldersArray,
)
    requires
        forall|j: int|
            0 <= j < records.len() && (#[trigger] records[j]).parent_id@ == root ==> id_in(
                storage,
                records[j].id@,
            ),
        forall|k: int|
            0 <= k < storage.len() ==> children_collected(
                records,
                storage,
                #[trigger] storage[k],
            ),
        chain_connects(records, root, chain, x),
    ensures
        id_in(storage, x.id@),
    decreases chain.len(),
{
    if chain.len() == 1 {
        let j = choose|j: int| 0 <= j < records.len() && records[j] == x;
        assert(records[j].parent_id@ == root);
    } else {
        let y = chain[chain.len() - 2];
        let prefix = chain.drop_last();
        assert(prefix.last() == y);
        assert(forall|k: int| 0 <= k < prefix.len() ==> prefix[k] == chain[k]);
        assert(chain_connects(records, root, prefix, y));
        lemma_chain_collected(records, storage, root, prefix, y);
        let k = choose|k: int| 0 <= k < storage.len() && storage[k].id@ == y.id@;
        let j = choose|j: int| 0 <= j < records.len() && records[j] == x;
        assert(records[j].parent_id@ == storage[k].id@);
        assert(children_collected(records, storage, storage[k]));
    }
}

/// The subtree collector misses nothing: a collection that holds every
/// direct child of `root` and is closed under the direct children of its
/// own entries holds every record reachable from `root` by child links.
/// Together with the collector's own contract, every descendant of a
/// looked-up folder ends up in its result.
pub proof fn lemma_collected_subtree_complete(
    records: Seq<FoldersArray>,
    storage: Seq<FoldersArray>,
    root: Seq<char>,
    x: FoldersArray,
)
    requires
        forall|j: int|
            0 <= j < records.len() && (#[trigger] records[j]).parent_id@ == root ==> id_in(
                storage,
                records[j].id@,
            ),
        forall|k: int|
            0 <= k < storage.len() ==> children_collected(
                records,
                storage,
                #[trigger] storage[k],
            ),
        is_descendant_of(records, root, x),
    ensures
        id_in(storage, x.id@),
{
    let chain = choose|chain: Seq<FoldersArray>| chain_connects(records, root, chain, x);
    lemma_chain_collected(records, storage, root, chain, x);
}

/// What a successfully resolved path looks like: it is non-empty, it ends at
/// the queried id, its first entry's record has no parent, and each later
/// entry's record names the previous entry as its parent. Titles are taken
/// from the records the entries point at.
pub proof fn lemma_resolve_chain(records: Seq<FoldersArray>, id: Seq<char>, fuel: nat)
    requires
        resolve_spec(records, id, fuel) is Ok,
    ensures
        ({
            let p = resolve_spec(records, id, fuel)->Ok_0;
            &&& p.len() > 0
            &&& p.last().id == id
            &&& forall|k: int|
                0 <= k < p.len() ==> {
                    let fi = find_folder(records, (#[trigger] p[k]).id);
                    &&& fi >= 0
                    &&& records[fi].id@ == p[k].id
                    &&& records[fi].title@ == p[k].title
                    &&& (k == 0 ==> records[fi].parent_id@.len() == 0)
                    &&& (k > 0 ==> records[fi].parent_id@ == p[k - 1].id)
                }
        }),
    decreases fuel,
{
    let p = resolve_spec(records, id, fuel)->Ok_0;
    let k0 = find_folder(records, id);
    lemma_find_folder(records, id);
    let rec = records[k0];
    if rec.parent_id@.len() == 0 {
        assert(find_folder(records, p[0].id) == k0);
    } else {
        lemma_resolve_chain(records, rec.parent_id@, (fuel - 1) as nat);
        let p_par = resolve_spec(records, rec.parent_id@, (fuel - 1) as nat)->Ok_0;
        assert(forall|k: int| 0 <= k < p_par.len() ==> p[k] == p_par[k]);
        assert(find_folder(records, p[p.len() - 1].id) == k0);
    }
}

impl JoplinData {
    /// An index over a complete snapshot: the folder and note lists as
    /// fetched, and the token suffix appended to every request.
    pub fn new(provided_token: String, dir_list: Vec<FoldersArray>, notes_list: Vec<NotesArray>) -> (r:
        JoplinData)
        ensures
            r.token_string@ == "?token="@ + provided_token@,
            r.dir_list@ == dir_list@,
            r.notes_list@ == notes_list@,
    {
        let token_string = "?token=".to_owned().concat(provided_token.as_str());
        JoplinData { token_string, dir_list, notes_list }
    }

    /// The request URL for one page: `request` with `&page=<page>` appended.
    pub fn add_page(&self, page: i32, request: &mut String) -> (r: String)
        ensures
            r@ == old(request)@ + "&page="@ + dec_str(page as int),
            final(request)@ == old(request)@,
    {
        let mut out = request.clone();
        out.append("&page=");
        if page >= 0 {
            push_decimal(page as u64, &mut out);
        } else {
            out.append("-");
            let magnitude: u64 = (-(page as i64)) as u64;
            proof {
                reveal_strlit("-");
                assert(magnitude as nat == (-(page as int)) as nat);
            }
            push_decimal(magnitude, &mut out);
        }
        proof {
            assert(out@ =~= old(request)@ + "&page="@ + dec_str(page as int));
        }
        out
    }

    /// The notes whose parent is `folder_id`, in input order.
    pub open spec fn notes_of(notes: Seq<NotesArray>, folder_id: Seq<char>) -> Seq<NotesArray>
        decreases notes.len(),
    {
        if notes.len() == 0 {
            Seq::empty()
        } else {
            Self::notes_of(notes.drop_last(), folder_id) + if notes.last().parent_id@
                == folder_id {
                seq![notes.last()]
            } else {
                Seq::empty()
            }
        }
    }

    /// All notes of the folder `folder_id`, in input order. The index itself
    /// is left unchanged.
    pub fn get_notes_of_folder(&mut self, folder_id: &str) -> (r: Result<
        Vec<NotesArray>,
        CoreError,
    >)
        ensures
            *final(self) == *old(self),
            r is Ok,
            r->Ok_0@ == Self::notes_of(old(self).notes_list@, folder_id@),
    {
        let fid = folder_id.to_owned();
        let mut notes: Vec<NotesArray> = Vec::new();
        let mut k: usize = 0;
        while k < self.notes_list.len()
            invariant
                k <= self.notes_list@.len(),
                notes@ == Self::notes_of(self.notes_list@.subrange(0, k as int), fid@),
            decreases self.notes_list@.len() - k,
        {
            let ghost prefix = self.notes_list@.subrange(0, k as int);
            let ghost prefix_next = self.notes_list@.subrange(0, k as int + 1);
            proof {
                assert(prefix_next.drop_last() =~= prefix);
                assert(prefix_next.last() == self.notes_list@[k as int]);
            }
            if self.notes_list[k].parent_id == fid {
                notes.push(self.notes_list[k].clone());
                proof {
                    assert(notes@ =~= Self::notes_of(prefix_next, fid@));
                }
            } else {
                proof {
                    assert(notes@ =~= Self::notes_of(prefix_next, fid@));
                }
            }
            k += 1;
        }
        proof {
            assert(self.notes_list@.subrange(0, self.notes_list@.len() as int)
                =~= self.notes_list@);
        }
        Ok(notes)
    }

    /// Collect into `folder_storage` every folder of the index that lies
    /// below the folder id `root_id`, in depth-first pre-order with children
    /// in input order, skipping any id already collected: the result is
    /// exactly the deterministic traversal `collect_from` describes.
    ///
    /// Existing entries are kept and stay in place. Every entry added is an
    /// index record reachable from `root_id` by child links; no id is ever
    /// collected twice; every direct child of `root_id`, and every direct
    /// child of any added entry, ends up collected.
    #[verifier::loop_isolation(false)]
    pub fn look_for_children_folders(&self, folder_storage: &mut Vec<FoldersArray>, root_id: String)
        requires
            unique_ids(self.dir_list@),
            unique_ids(old(folder_storage)@),
            forall|k: int|
                0 <= k < old(folder_storage)@.len() ==> record_in(
                    self.dir_list@,
                    #[trigger] old(folder_storage)@[k],
                ),
        ensures
            final(folder_storage)@ == collect_from(
                self.dir_list@,
                old(folder_storage)@,
                root_id@,
                0,
                self.dir_list@.len() as nat,
            ),
            old(folder_storage)@.is_prefix_of(final(folder_storage)@),
            unique_ids(final(folder_storage)@),
            forall|k: int|
                0 <= k < final(folder_storage)@.len() ==> record_in(
                    self.dir_list@,
                    #[trigger] final(folder_storage)@[k],
                ),
            forall|k: int|
                old(folder_storage)@.len() <= k < final(folder_storage)@.len()
                    ==> is_descendant_of(
                    self.dir_list@,
                    root_id@,
                    #[trigger] final(folder_storage)@[k],
                ),
            forall|j: int|
                0 <= j < self.dir_list@.len() && (#[trigger] self.dir_list@[j]).parent_id@
                    == root_id@ ==> id_in(final(folder_storage)@, self.dir_list@[j].id@),
            forall|k: int|
                old(folder_storage)@.len() <= k < final(folder_storage)@.len()
                    ==> children_collected(
                    self.dir_list@,
                    final(folder_storage)@,
                    #[trigger] final(folder_storage)@[k],
                ),
        decreases self.dir_list@.len() - old(folder_storage)@.len(),
    {
        let ghost dir = self.dir_list@;
        let ghost base = old(folder_storage)@;
        let ghost full_fuel = self.dir_list@.len() as nat;
        let mut idx: usize = 0;
        while idx < self.dir_list.len()
            invariant
                idx <= dir.len(),
                self.dir_list@ == dir,
                unique_ids(dir),
                collect_from(dir, folder_storage@, root_id@, idx as int, full_fuel)
                    == collect_from(dir, base, root_id@, 0, full_fuel),
                base.is_prefix_of(folder_storage@),
                unique_ids(folder_storage@),
                forall|k: int|
                    0 <= k < folder_storage@.len() ==> record_in(
                        dir,
                        #[trigger] folder_storage@[k],
                    ),
                forall|k: int|
                    base.len() <= k < folder_storage@.len() ==> is_descendant_of(
                        dir,
                        root_id@,
                        #[trigger] folder_storage@[k],
                    ),
                forall|j: int|
                    0 <= j < idx && (#[trigger] dir[j]).parent_id@ == root_id@ ==> id_in(
                        folder_storage@,
                        dir[j].id@,
                    ),
                forall|k: int|
                    base.len() <= k < folder_storage@.len() ==> children_collected(
                        dir,
                        folder_storage@,
                        #[trigger] folder_storage@[k],
                    ),
            decreases dir.len() - idx,
        {
            if self.dir_list[idx].parent_id == root_id {
                let already = contains_id(folder_storage, &self.dir_list[idx].id);
                if !already {
                    let ghost before = folder_storage@;
                    let folder = self.dir_list[idx].clone();
                    folder_storage.push(folder);
                    proof {
                        assert(before.is_prefix_of(folder_storage@));
                        assert(folder_storage@.last() == dir[idx as int]);
                        assert(record_in(dir, dir[idx as int]));
                        assert(chain_connects(
                            dir,
                            root_id@,
                            seq![dir[idx as int]],
                            dir[idx as int],
                        ));
                        assert forall|k: int|
                            base.len() <= k < folder_storage@.len()
                                - 1 implies is_descendant_of(
                            dir,
                            root_id@,
                            #[trigger] folder_storage@[k],
                        ) by {
                            assert(folder_storage@[k] == before[k]);
                        }
                        lemma_storage_bound(folder_storage@, dir);
                    }
                    let ghost mid = folder_storage@;
                    let child_id = self.dir_list[idx].id.clone();
                    self.look_for_children_folders(folder_storage, child_id);
                    proof {
                        let cur = folder_storage@;
                        // the model takes the same step: push the record,
                        // collect its subtree with one less fuel (which the
                        // fuel lemma equates with full fuel), then scan on
                        assert(exists|w: int|
                            0 <= w < dir.len() && dir[w].id@ == dir[idx as int].id@);
                        lemma_count_new_push(dir, before, dir[idx as int]);
                        lemma_count_new_le(dir, before);
                        lemma_collect_fuel(
                            dir,
                            mid,
                            dir[idx as int].id@,
                            0,
                            (full_fuel - 1) as nat,
                            full_fuel,
                        );
                        assert(collect_from(dir, before, root_id@, idx as int, full_fuel)
                            == collect_from(dir, cur, root_id@, idx as int + 1, full_fuel));
                        assert(base.is_prefix_of(cur)) by {
                            assert(forall|k: int|
                                0 <= k < base.len() ==> base[k] == #[trigger] cur[k]);
                        }
                        // entries the recursive call added are descendants of
                        // the pushed child, hence of `root_id`
                        assert forall|k: int|
                            base.len() <= k < cur.len() implies is_descendant_of(
                            dir,
                            root_id@,
                            #[trigger] cur[k],
                        ) by {
                            if k < mid.len() - 1 {
                                assert(cur[k] == mid[k] && mid[k] == before[k]);
                            } else if k == mid.len() - 1 {
                                assert(cur[k] == dir[idx as int]);
                            } else {
                                lemma_descendant_step(
                                    dir,
                                    root_id@,
                                    dir[idx as int],
                                    cur[k],
                                );
                            }
                        }
                        // ids once present stay present
                        assert forall|j: int|
                            0 <= j < idx + 1 && (#[trigger] dir[j]).parent_id@
                                == root_id@ implies id_in(cur, dir[j].id@) by {
                            if j < idx {
                                lemma_id_in_prefix(before, mid, dir[j].id@);
                                lemma_id_in_prefix(mid, cur, dir[j].id@);
                            } else {
                                assert(mid[mid.len() - 1].id@ == dir[j].id@);
                                lemma_id_in_prefix(mid, cur, dir[j].id@);
                            }
                        }
                        // closure for older entries persists; the pushed child
                        // got it from the recursive call's own closure
                        assert forall|k: int|
                            base.len() <= k < cur.len() implies children_collected(
                            dir,
                            cur,
                            #[trigger] cur[k],
                        ) by {
                            if k < mid.len() - 1 {
                                assert(cur[k] == mid[k] && mid[k] == before[k]);
                                assert(children_collected(dir, before, before[k]));
                                assert forall|j: int|
                                    0 <= j < dir.len() && (#[trigger] dir[j]).parent_id@
                                        == cur[k].id@ implies id_in(cur, dir[j].id@) by {
                                    lemma_id_in_prefix(before, mid, dir[j].id@);
                                    lemma_id_in_prefix(mid, cur, dir[j].id@);
                                }
                            } else if k == mid.len() - 1 {
                                assert(cur[k] == dir[idx as int]);
                            }
                        }
                    }
                } else {
                    proof {
                        assert(forall|j: int|
                            0 <= j < idx + 1 && (#[trigger] dir[j]).parent_id@ == root_id@
                                ==> id_in(folder_storage@, dir[j].id@));
                        assert(collect_from(dir, folder_storage@, root_id@, idx as int, full_fuel)
                            == collect_from(
                            dir,
                            folder_storage@,
                            root_id@,
                            idx as int + 1,
                            full_fuel,
                        ));
                    }
                }
            } else {
                proof {
                    assert(collect_from(dir, folder_storage@, root_id@, idx as int, full_fuel)
                        == collect_from(
                        dir,
                        folder_storage@,
                        root_id@,
                        idx as int + 1,
                        full_fuel,
                    ));
                }
            }
            idx += 1;
        }
        proof {
            assert(collect_from(dir, folder_storage@, root_id@, dir.len() as int, full_fuel)
                == folder_storage@);
        }
    }

    /// The folder `folder_id` itself followed by its whole subtree, in
    /// depth-first pre-order with children in input order — exactly the
    /// deterministic traversal `collect_from` describes, seeded with the
    /// folder's own record; `NotFound` when no record carries that id.
    pub fn lookup_folder(&self, folder_id: String) -> (r: Result<Vec<FoldersArray>, CoreError>)
        requires
            unique_ids(self.dir_list@),
        ensures
            ({
                let fi = find_folder(self.dir_list@, folder_id@);
                match r {
                    Ok(v) => {
                        &&& fi >= 0
                        &&& v@.len() >= 1
                        &&& v@[0] == self.dir_list@[fi]
                        &&& v@ == collect_from(
                            self.dir_list@,
                            seq![self.dir_list@[fi]],
                            folder_id@,
                            0,
                            self.dir_list@.len() as nat,
                        )
                        &&& unique_ids(v@)
                        &&& forall|k: int|
                            0 <= k < v@.len() ==> record_in(self.dir_list@, #[trigger] v@[k])
                        &&& forall|k: int|
                            1 <= k < v@.len() ==> is_descendant_of(
                                self.dir_list@,
                                folder_id@,
                                #[trigger] v@[k],
                            )
                        &&& forall|j: int|
                            0 <= j < self.dir_list@.len() && (
                            #[trigger] self.dir_list@[j]).parent_id@ == folder_id@ ==> id_in(
                                v@,
                                self.dir_list@[j].id@,
                            )
                        &&& forall|k: int|
                            0 <= k < v@.len() ==> children_collected(
                                self.dir_list@,
                                v@,
                                #[trigger] v@[k],
                            )
                    },
                    Err(e) => fi == -1 && e == CoreError::NotFound,
                }
            }),
    {
        match position_of_id(&self.dir_list, &folder_id) {
            None => Err(CoreError::NotFound),
            Some(index) => {
                let root = self.dir_list[index].clone();
                let ghost fi = find_folder(self.dir_list@, folder_id@);
                proof {
                    lemma_find_folder(self.dir_list@, folder_id@);
                }
                let mut folders_children: Vec<FoldersArray> = Vec::new();
                folders_children.push(root);
                proof {
                    assert(folders_children@[0] == self.dir_list@[fi]);
                    assert(record_in(self.dir_list@, folders_children@[0]));
                }
                let ghost seeded = folders_children@;
                let root_id = self.dir_list[index].id.clone();
                self.look_for_children_folders(&mut folders_children, root_id);
                proof {
                    assert(folders_children@[0] == self.dir_list@[fi]);
                    assert(self.dir_list@[fi].id@ == folder_id@);
                    assert(seeded =~= seq![self.dir_list@[fi]]);
                }
                Ok(folders_children)
            },
        }
    }

    /// The resolver's walk from `id`, with `fuel` parent steps left: appends
    /// the resolved chain to `out`, exactly as `resolve_spec` says.
    fn resolve_from(&self, id: &String, fuel: usize, out: &mut Vec<MinimumFolder>) -> (r: Result<
        (),
        CoreError,
    >)
        ensures
            ({
                let outcome = resolve_spec(self.dir_list@, id@, fuel as nat);
                match r {
                    Ok(()) => outcome is Ok && entries_view(final(out)@) == entries_view(
                        old(out)@,
                    ) + outcome->Ok_0,
                    Err(e) => outcome == Err::<Seq<PathEntryView>, CoreError>(e) && final(out)@
                        == old(out)@,
                }
            }),
        decreases fuel,
    {
        match position_of_id(&self.dir_list, id) {
            None => Err(CoreError::NotFound),
            Some(k) => {
                let rec = &self.dir_list[k];
                let entry = MinimumFolder { title: rec.title.clone(), id: rec.id.clone() };
                let ghost eview = PathEntryView { title: rec.title@, id: rec.id@ };
                if rec.parent_id.as_str().is_empty() {
                    out.push(entry);
                    proof {
                        assert(entries_view(out@) =~= entries_view(old(out)@) + seq![eview]);
                    }
                    Ok(())
                } else if fuel == 0 {
                    Err(CoreError::CycleDetected)
                } else {
                    let parent = rec.parent_id.clone();
                    match self.resolve_from(&parent, fuel - 1, out) {
                        Ok(()) => {
                            let ghost mid = out@;
                            out.push(entry);
                            proof {
                                let p = resolve_spec(
                                    self.dir_list@,
                                    parent@,
                                    (fuel - 1) as nat,
                                )->Ok_0;
                                assert(entries_view(out@) =~= entries_view(mid).push(eview));
                                assert(entries_view(old(out)@) + p.push(eview) =~= (
                                entries_view(old(out)@) + p).push(eview));
                            }
                            Ok(())
                        },
                        Err(e) => Err(e),
                    }
                }
            },
        }
    }

    /// The root-first ancestor chain of the folder `folder_id`, each entry a
    /// title and its id: exactly what the model resolver returns with fuel
    /// equal to the record count.
    pub fn get_path_folder(&self, folder_id: &str) -> (r: Result<Vec<MinimumFolder>, CoreError>)
        ensures
            ({
                let outcome = resolve_spec(
                    self.dir_list@,
                    folder_id@,
                    self.dir_list@.len() as nat,
                );
                match r {
                    Ok(v) => outcome == Ok::<Seq<PathEntryView>, CoreError>(entries_view(v@)),
                    Err(e) => outcome == Err::<Seq<PathEntryView>, CoreError>(e),
                }
            }),
    {
        let target = folder_id.to_owned();
        let mut out: Vec<MinimumFolder> = Vec::new();
        let fuel = self.dir_list.len();
        match self.resolve_from(&target, fuel, &mut out) {
            Ok(()) => {
                proof {
                    assert(entries_view(Seq::<MinimumFolder>::empty()) =~= Seq::<
                        PathEntryView,
                    >::empty());
                    let p = resolve_spec(
                        self.dir_list@,
                        target@,
                        fuel as nat,
                    )->Ok_0;
                    assert(Seq::<PathEntryView>::empty() + p =~= p);
                }
                Ok(out)
            },
            Err(e) => Err(e),
        }
    }
}

} // verus!
