//! The file table: every workspace file with its content hash, unique by path
//! and always sorted by path.

use vstd::prelude::*;
use crate::path_order::{
    lemma_path_lt_irreflexive, lemma_path_lt_total, lemma_path_lt_transitive, path_less, path_lt,
};

verus! {

/// A path with the content hash of the file there.
#[derive(Clone, Debug, PartialEq, Eq)]
pub struct FileData {
    pub file: String,
    pub hash: String,
}

impl View for FileData {
    type V = (Seq<char>, Seq<char>);

    open spec fn view(&self) -> (Seq<char>, Seq<char>) {
        (self.file@, self.hash@)
    }
}

impl FileData {
    /// A copy of this entry.
    pub fn duplicate(&self) -> (r: FileData)
        ensures
            r@ == self@,
    {
        FileData { file: self.file.clone(), hash: self.hash.clone() }
    }
}

/// The (path, hash) pairs that a list of entries holds.
pub open spec fn views_of(v: Seq<FileData>) -> Seq<(Seq<char>, Seq<char>)> {
    v.map_values(|e: FileData| e@)
}

/// Paths strictly ascend along the sequence, so no path occurs twice.
pub open spec fn strictly_sorted(s: Seq<(Seq<char>, Seq<char>)>) -> bool {
    forall|i: int, j: int| 0 <= i < j < s.len() ==> path_lt(#[trigger] s[i].0, #[trigger] s[j].0)
}

/// Whether some entry of `s` has path `p`.
pub open spec fn has_path(s: Seq<(Seq<char>, Seq<char>)>, p: Seq<char>) -> bool {
    exists|i: int| 0 <= i < s.len() && #[trigger] s[i].0 == p
}

/// An index of `s` whose path is `p`, where there is one.
pub open spec fn index_of(s: Seq<(Seq<char>, Seq<char>)>, p: Seq<char>) -> int {
    choose|i: int| 0 <= i < s.len() && #[trigger] s[i].0 == p
}

/// The path-to-hash mapping that a sequence of entries with unique paths holds.
pub open spec fn entries_map(s: Seq<(Seq<char>, Seq<char>)>) -> Map<Seq<char>, Seq<char>> {
    Map::new(|p: Seq<char>| has_path(s, p), |p: Seq<char>| s[index_of(s, p)].1)
}

/// In a strictly sorted sequence, a path occurs at one index only.
pub proof fn lemma_unique_paths(s: Seq<(Seq<char>, Seq<char>)>, i: int, j: int)
    requires
        strictly_sorted(s),
        0 <= i < s.len(),
        0 <= j < s.len(),
        s[i].0 == s[j].0,
    ensures
        i == j,
{
    lemma_path_lt_irreflexive(s[i].0);
}

/// The entry at index `i` is what the mapping holds for its path.
pub proof fn lemma_entry_in_map(s: Seq<(Seq<char>, Seq<char>)>, i: int)
    requires
        strictly_sorted(s),
        0 <= i < s.len(),
    ensures
        entries_map(s).contains_key(s[i].0),
        entries_map(s)[s[i].0] == s[i].1,
{
    let p = s[i].0;
    assert(has_path(s, p));
    lemma_unique_paths(s, i, index_of(s, p));
}

/// The paths that a list of path strings names.
pub open spec fn paths_of(v: Seq<String>) -> Seq<Seq<char>> {
    v.map_values(|s: String| s@)
}

/// The (path, hash) pairs that a list of string pairs names.
pub open spec fn pairs_of(v: Seq<(String, String)>) -> Seq<(Seq<char>, Seq<char>)> {
    v.map_values(|e: (String, String)| e@)
}

/// `m` with each path of `deleted` removed.
pub open spec fn without_paths(m: Map<Seq<char>, Seq<char>>, deleted: Seq<Seq<char>>) -> Map<
    Seq<char>,
    Seq<char>,
>
    decreases deleted.len(),
{
    if deleted.len() == 0 {
        m
    } else {
        without_paths(m, deleted.drop_last()).remove(deleted.last())
    }
}

/// `m` with each (path, hash) of `updated` set in turn; a later pair for a path wins.
pub open spec fn with_entries(
    m: Map<Seq<char>, Seq<char>>,
    updated: Seq<(Seq<char>, Seq<char>)>,
) -> Map<Seq<char>, Seq<char>>
    decreases updated.len(),
{
    if updated.len() == 0 {
        m
    } else {
        with_entries(m, updated.drop_last()).insert(updated.last().0, updated.last().1)
    }
}

/// The mapping after an incremental update: deletions first, then the new hashes.
pub open spec fn after_update(
    m: Map<Seq<char>, Seq<char>>,
    deleted: Seq<Seq<char>>,
    updated: Seq<(Seq<char>, Seq<char>)>,
) -> Map<Seq<char>, Seq<char>> {
    with_entries(without_paths(m, deleted), updated)
}

/// Relies on rayon's `ParallelSliceMut::par_sort`: a stable sort, so the
/// result holds the same elements as the input.
#[verifier::external_body]
fn par_sort_pairs(v: &mut Vec<(String, String)>)
    ensures
        final(v)@.to_multiset() == old(v)@.to_multiset(),
{
    rayon::slice::ParallelSliceMut::par_sort(v.as_mut_slice())
}

/// The table: entries sorted by path, unique by path.
pub struct FileTable {
    entries: Vec<FileData>,
}

impl View for FileTable {
    type V = Seq<(Seq<char>, Seq<char>)>;

    closed spec fn view(&self) -> Seq<(Seq<char>, Seq<char>)> {
        views_of(self.entries@)
    }
}

impl FileTable {
    /// The table's invariant.
    pub open spec fn wf(&self) -> bool {
        strictly_sorted(self@)
    }

    /// The path-to-hash mapping that the table holds.
    pub open spec fn mapping(&self) -> Map<Seq<char>, Seq<char>> {
        entries_map(self@)
    }

    /// An empty table.
    pub fn new() -> (r: FileTable)
        ensures
            r.wf(),
            r@ == Seq::<(Seq<char>, Seq<char>)>::empty(),
            r.mapping() == Map::<Seq<char>, Seq<char>>::empty(),
    {
        let r = FileTable { entries: Vec::new() };
        assert(r@ =~= Seq::<(Seq<char>, Seq<char>)>::empty());
        assert(r.mapping() =~= Map::<Seq<char>, Seq<char>>::empty());
        r
    }

    /// Number of entries.
    pub fn len(&self) -> (r: usize)
        ensures
            r == self@.len(),
    {
        self.entries.len()
    }

    /// The first index whose path does not come before `p`.
    fn lower_bound(&self, p: &String) -> (k: usize)
        requires
            self.wf(),
        ensures
            k <= self@.len(),
            forall|j: int| 0 <= j < k ==> path_lt(#[trigger] self@[j].0, p@),
            forall|j: int| k <= j < self@.len() ==> !path_lt(#[trigger] self@[j].0, p@),
    {
        let mut lo: usize = 0;
        let mut hi: usize = self.entries.len();
        while lo < hi
            invariant
                self.wf(),
                hi <= self@.len() == self.entries@.len(),
                lo <= hi,
                forall|j: int| 0 <= j < lo ==> path_lt(#[trigger] self@[j].0, p@),
                forall|j: int| hi <= j < self@.len() ==> !path_lt(#[trigger] self@[j].0, p@),
            decreases hi - lo,
        {
            let mid: usize = lo + (hi - lo) / 2;
            assert(self@[mid as int] == self.entries@[mid as int]@);
            if path_less(&self.entries[mid].file, p) {
                assert forall|j: int| 0 <= j <= mid implies path_lt(#[trigger] self@[j].0, p@) by {
                    if j < mid {
                        lemma_path_lt_transitive(self@[j].0, self@[mid as int].0, p@);
                    }
                }
                lo = mid + 1;
            } else {
                assert forall|j: int| mid <= j < self@.len() implies !path_lt(
                    #[trigger] self@[j].0,
                    p@,
                ) by {
                    if j > mid && path_lt(self@[j].0, p@) {
                        lemma_path_lt_transitive(self@[mid as int].0, self@[j].0, p@);
                    }
                }
                hi = mid;
            }
        }
        lo
    }

    /// Sets the hash of `file`, adding the entry where the path is new.
    pub fn upsert(&mut self, file: String, hash: String)
        requires
            old(self).wf(),
        ensures
            final(self).wf(),
            final(self).mapping() == old(self).mapping().insert(file@, hash@),
    {
        let k = self.lower_bound(&file);
        let ghost s0 = self@;
        let ghost p = file@;
        let ghost h = hash@;
        if k < self.entries.len() && self.entries[k].file == file {
            assert(self.entries@[k as int]@ == s0[k as int]);
            self.entries.set(k, FileData { file, hash });
            let ghost s1 = self@;
            assert(s1 =~= s0.update(k as int, (p, h)));
            assert(s1[k as int].0 == p);
            assert forall|i: int, j: int| 0 <= i < j < s1.len() implies path_lt(
                #[trigger] s1[i].0,
                #[trigger] s1[j].0,
            ) by {
                assert(s1[i].0 == s0[i].0 && s1[j].0 == s0[j].0);
            }
            assert forall|q: Seq<char>| #[trigger] entries_map(s1).contains_key(q)
                == old(self).mapping().insert(p, h).contains_key(q) by {
                if has_path(s0, q) {
                    let i = choose|i: int| 0 <= i < s0.len() && #[trigger] s0[i].0 == q;
                    assert(s1[i].0 == q);
                }
                if has_path(s1, q) {
                    let i = choose|i: int| 0 <= i < s1.len() && #[trigger] s1[i].0 == q;
                    assert(s0[i].0 == q);
                }
            }
            assert forall|q: Seq<char>| #[trigger] entries_map(s1).contains_key(q) implies
                entries_map(s1)[q] == old(self).mapping().insert(p, h)[q] by {
                let i = choose|i: int| 0 <= i < s1.len() && #[trigger] s1[i].0 == q;
                lemma_entry_in_map(s1, i);
                if q == p {
                    lemma_unique_paths(s1, i, k as int);
                } else {
                    lemma_entry_in_map(s0, i);
                }
            }
            assert(entries_map(s1) =~= old(self).mapping().insert(p, h));
        } else {
            proof {
                if k < s0.len() {
                    lemma_path_lt_total(s0[k as int].0, p);
                }
            }
            self.entries.insert(k, FileData { file, hash });
            let ghost s1 = self@;
            assert(s1 =~= s0.insert(k as int, (p, h)));
            assert forall|i: int, j: int| 0 <= i < j < s1.len() implies path_lt(
                #[trigger] s1[i].0,
                #[trigger] s1[j].0,
            ) by {
                if j == k {
                } else if i == k {
                    if j > k + 1 {
                        lemma_path_lt_transitive(p, s0[k as int].0, s0[j - 1].0);
                    }
                }
            }
            assert forall|q: Seq<char>| #[trigger] entries_map(s1).contains_key(q)
                == old(self).mapping().insert(p, h).contains_key(q) by {
                if has_path(s0, q) {
                    let i = choose|i: int| 0 <= i < s0.len() && #[trigger] s0[i].0 == q;
                    if i < k {
                        assert(s1[i].0 == q);
                    } else {
                        assert(s1[i + 1].0 == q);
                    }
                }
                if q == p {
                    assert(s1[k as int].0 == q);
                }
                if has_path(s1, q) {
                    let i = choose|i: int| 0 <= i < s1.len() && #[trigger] s1[i].0 == q;
                    if i < k {
                        assert(s0[i].0 == q);
                    } else if i > k {
                        assert(s0[i - 1].0 == q);
                    }
                }
            }
            assert forall|q: Seq<char>| #[trigger] entries_map(s1).contains_key(q) implies
                entries_map(s1)[q] == old(self).mapping().insert(p, h)[q] by {
                let i = choose|i: int| 0 <= i < s1.len() && #[trigger] s1[i].0 == q;
                lemma_entry_in_map(s1, i);
                if q == p {
                    lemma_unique_paths(s1, i, k as int);
                } else if i < k {
                    lemma_entry_in_map(s0, i);
                } else if i > k {
                    lemma_entry_in_map(s0, i - 1);
                }
            }
            assert(entries_map(s1) =~= old(self).mapping().insert(p, h));
        }
    }
    /// Whether the table holds path `p`.
    pub fn contains(&self, p: &String) -> (r: bool)
        requires
            self.wf(),
        ensures
            r == self.mapping().contains_key(p@),
    {
        let k = self.lower_bound(p);
        let ghost s0 = self@;
        if k < self.entries.len() && self.entries[k].file == *p {
            assert(self.entries@[k as int]@ == s0[k as int]);
            assert(s0[k as int].0 == p@);
            assert(has_path(s0, p@));
            true
        } else {
            assert forall|i: int| 0 <= i < s0.len() implies #[trigger] s0[i].0 != p@ by {
                lemma_path_lt_irreflexive(p@);
                if i > k {
                    lemma_path_lt_total(s0[k as int].0, p@);
                    if path_lt(p@, s0[k as int].0) && s0[i].0 == p@ {
                        lemma_path_lt_transitive(p@, s0[k as int].0, s0[i].0);
                    }
                }
                if i == k {
                    assert(self.entries@[k as int]@ == s0[k as int]);
                }
            }
            false
        }
    }

    /// Removes the entry of path `p`, if there is one.
    pub fn remove(&mut self, p: &String)
        requires
            old(self).wf(),
        ensures
            final(self).wf(),
            final(self).mapping() == old(self).mapping().remove(p@),
    {
        let k = self.lower_bound(p);
        let ghost s0 = self@;
        if k < self.entries.len() && self.entries[k].file == *p {
            assert(self.entries@[k as int]@ == s0[k as int]);
            self.entries.remove(k);
            let ghost s1 = self@;
            assert(s1 =~= s0.remove(k as int));
            assert forall|i: int, j: int| 0 <= i < j < s1.len() implies path_lt(
                #[trigger] s1[i].0,
                #[trigger] s1[j].0,
            ) by {
                if i >= k {
                    assert(s1[i] == s0[i + 1] && s1[j] == s0[j + 1]);
                } else if j >= k {
                    assert(s1[j] == s0[j + 1]);
                }
            }
            assert forall|q: Seq<char>| #[trigger] entries_map(s1).contains_key(q)
                == old(self).mapping().remove(p@).contains_key(q) by {
                if has_path(s0, q) && q != p@ {
                    let i = choose|i: int| 0 <= i < s0.len() && #[trigger] s0[i].0 == q;
                    if i < k {
                        assert(s1[i].0 == q);
                    } else {
                        assert(i != k);
                        assert(s1[i - 1].0 == q);
                    }
                }
                if has_path(s1, q) {
                    let i = choose|i: int| 0 <= i < s1.len() && #[trigger] s1[i].0 == q;
                    if i < k {
                        assert(s0[i].0 == q);
                        if q == p@ {
                            lemma_unique_paths(s0, i, k as int);
                        }
                    } else {
                        assert(s0[i + 1].0 == q);
                        if q == p@ {
                            lemma_unique_paths(s0, i + 1, k as int);
                        }
                    }
                }
            }
            assert forall|q: Seq<char>| #[trigger] entries_map(s1).contains_key(q) implies
                entries_map(s1)[q] == old(self).mapping().remove(p@)[q] by {
                let i = choose|i: int| 0 <= i < s1.len() && #[trigger] s1[i].0 == q;
                lemma_entry_in_map(s1, i);
                if i < k {
                    lemma_entry_in_map(s0, i);
                } else {
                    lemma_entry_in_map(s0, i + 1);
                }
            }
            assert(entries_map(s1) =~= old(self).mapping().remove(p@));
        } else {
            assert forall|i: int| 0 <= i < s0.len() implies #[trigger] s0[i].0 != p@ by {
                lemma_path_lt_irreflexive(p@);
                if i > k {
                    lemma_path_lt_total(s0[k as int].0, p@);
                    if path_lt(p@, s0[k as int].0) && s0[i].0 == p@ {
                        lemma_path_lt_transitive(p@, s0[k as int].0, s0[i].0);
                    }
                }
                if i == k {
                    assert(self.entries@[k as int]@ == s0[k as int]);
                }
            }
            assert(old(self).mapping().remove(p@) =~= old(self).mapping());
        }
    }

    /// Removes every path of `deleted`, then sets each (path, hash) of `updated` in
    /// turn; the table stays sorted and unique by path.
    pub fn apply_update(&mut self, deleted: &Vec<String>, updated: &Vec<(String, String)>)
        requires
            old(self).wf(),
        ensures
            final(self).wf(),
            final(self).mapping() == after_update(
                old(self).mapping(),
                paths_of(deleted@),
                pairs_of(updated@),
            ),
    {
        let ghost m0 = self.mapping();
        let mut i: usize = 0;
        while i < deleted.len()
            invariant
                self.wf(),
                i <= deleted@.len(),
                self.mapping() == without_paths(m0, paths_of(deleted@).take(i as int)),
            decreases deleted@.len() - i,
        {
            self.remove(&deleted[i]);
            assert(paths_of(deleted@).take(i + 1).drop_last() =~= paths_of(deleted@).take(
                i as int,
            ));
            i = i + 1;
        }
        assert(paths_of(deleted@).take(i as int) =~= paths_of(deleted@));
        let ghost m1 = self.mapping();
        let mut j: usize = 0;
        while j < updated.len()
            invariant
                self.wf(),
                j <= updated@.len(),
                self.mapping() == with_entries(m1, pairs_of(updated@).take(j as int)),
            decreases updated@.len() - j,
        {
            let file = updated[j].0.clone();
            let hash = updated[j].1.clone();
            self.upsert(file, hash);
            assert(pairs_of(updated@).take(j + 1).drop_last() =~= pairs_of(updated@).take(
                j as int,
            ));
            j = j + 1;
        }
        assert(pairs_of(updated@).take(j as int) =~= pairs_of(updated@));
    }

    /// Builds the table from freshly computed (path, hash) pairs.  Where a path
    /// occurs more than once, the table holds one of its pairs.
    pub fn from_hashes(hashes: Vec<(String, String)>) -> (r: FileTable)
        ensures
            r.wf(),
            forall|p: Seq<char>| #[trigger]
                r.mapping().contains_key(p) <==> has_path(pairs_of(hashes@), p),
            forall|p: Seq<char>| #[trigger]
                r.mapping().contains_key(p) ==> pairs_of(hashes@).contains((p, r.mapping()[p])),
    {
        let mut v = hashes;
        par_sort_pairs(&mut v);
        let mut t = FileTable::new();
        let mut i: usize = 0;
        while i < v.len()
            invariant
                t.wf(),
                i <= v@.len(),
                forall|p: Seq<char>| #[trigger]
                    t.mapping().contains_key(p) <==> has_path(pairs_of(v@).take(i as int), p),
                forall|p: Seq<char>| #[trigger]
                    t.mapping().contains_key(p) ==> pairs_of(v@).take(i as int).contains(
                        (p, t.mapping()[p]),
                    ),
            decreases v@.len() - i,
        {
            let ghost before = pairs_of(v@).take(i as int);
            let ghost after = pairs_of(v@).take(i + 1);
            let ghost m0 = t.mapping();
            let file = v[i].0.clone();
            let hash = v[i].1.clone();
            t.upsert(file, hash);
            assert(after =~= before.push((file@, hash@)));
            assert forall|p: Seq<char>| #[trigger]
                t.mapping().contains_key(p) <==> has_path(after, p) by {
                if has_path(before, p) {
                    let k = choose|k: int| 0 <= k < before.len() && #[trigger] before[k].0 == p;
                    assert(after[k].0 == p);
                }
                if has_path(after, p) && p != file@ {
                    let k = choose|k: int| 0 <= k < after.len() && #[trigger] after[k].0 == p;
                    assert(before[k].0 == p);
                }
                if p == file@ {
                    assert(after[i as int].0 == p);
                }
            }
            assert forall|p: Seq<char>| #[trigger] t.mapping().contains_key(p) implies after.contains(
                (p, t.mapping()[p]),
            ) by {
                if p == file@ {
                    assert(after[i as int] == (p, t.mapping()[p]));
                } else {
                    let k = choose|k: int| 0 <= k < before.len() && before[k] == (p, m0[p]);
                    assert(after[k] == before[k]);
                }
            }
            i = i + 1;
        }
        proof {
            broadcast use vstd::seq_lib::group_to_multiset_ensures;

            assert(pairs_of(v@).take(i as int) =~= pairs_of(v@));
            assert forall|p: Seq<char>| #[trigger] t.mapping().contains_key(p) implies (has_path(
                pairs_of(hashes@),
                p,
            ) && pairs_of(hashes@).contains((p, t.mapping()[p]))) by {
                let k = choose|k: int|
                    0 <= k < v@.len() && pairs_of(v@)[k] == (p, t.mapping()[p]);
                assert(v@.contains(v@[k]));
                assert(hashes@.to_multiset().count(v@[k]) > 0);
                let j = choose|j: int| 0 <= j < hashes@.len() && hashes@[j] == v@[k];
                assert(pairs_of(hashes@)[j] == (p, t.mapping()[p]));
            }
            assert forall|p: Seq<char>| has_path(pairs_of(hashes@), p) implies #[trigger]
                t.mapping().contains_key(p) by {
                let j = choose|j: int|
                    0 <= j < hashes@.len() && #[trigger] pairs_of(hashes@)[j].0 == p;
                assert(hashes@.contains(hashes@[j]));
                assert(v@.to_multiset().count(hashes@[j]) > 0);
                let k = choose|k: int| 0 <= k < v@.len() && v@[k] == hashes@[j];
                assert(pairs_of(v@)[k].0 == p);
            }
        }
        t
    }

    /// A copy of all entries, in path order.
    pub fn files(&self) -> (r: Vec<FileData>)
        ensures
            views_of(r@) == self@,
    {
        let mut r: Vec<FileData> = Vec::new();
        let mut i: usize = 0;
        while i < self.entries.len()
            invariant
                i <= self.entries@.len(),
                views_of(r@) == self@.take(i as int),
            decreases self.entries@.len() - i,
        {
            let e = self.entries[i].duplicate();
            assert(self@[i as int] == self.entries@[i as int]@);
            let ghost r0 = r@;
            assert(views_of(r0).len() == r0.len());
            r.push(e);
            assert(r@ == r0.push(e));
            assert forall|k: int| 0 <= k < i + 1 implies #[trigger] views_of(r@)[k] == self@.take(i + 1)[k] by {
                if k < i {
                    assert(r@[k] == r0[k]);
                    assert(views_of(r0)[k] == self@.take(i as int)[k]);
                }
            }
            assert(views_of(r@) =~= self@.take(i + 1));
            i = i + 1;
        }
        assert(self@.take(i as int) =~= self@);
        r
    }
}

} // verus!
