//! Selective hashing: which files can keep the hash recorded in the archive of
//! the previous run, and which must be read and hashed again.

use vstd::prelude::*;
use crate::file_table::{entries_map, has_path, lemma_entry_in_map, strictly_sorted};
use crate::laws::lemma_sorted_table_determined;
use crate::path_order::{
    lemma_path_lt_irreflexive, lemma_path_lt_total, lemma_path_lt_transitive, path_less, path_lt,
};

verus! {

/// A file on disk now: its path with its size and modification time.
pub struct FileStat {
    pub path: String,
    pub size: u64,
    pub modified: u64,
}

/// A file as the archive recorded it.
pub struct ArchivedFile {
    pub path: String,
    pub hash: String,
    pub size: u64,
    pub modified: u64,
}

impl View for FileStat {
    type V = (Seq<char>, u64, u64);

    open spec fn view(&self) -> (Seq<char>, u64, u64) {
        (self.path@, self.size, self.modified)
    }
}

impl View for ArchivedFile {
    type V = (Seq<char>, Seq<char>, u64, u64);

    open spec fn view(&self) -> (Seq<char>, Seq<char>, u64, u64) {
        (self.path@, self.hash@, self.size, self.modified)
    }
}

/// The (path, size, time) triples of the files on disk.
pub open spec fn stats_of(v: Seq<FileStat>) -> Seq<(Seq<char>, u64, u64)> {
    v.map_values(|f: FileStat| f@)
}

/// The (path, hash, size, time) records of the archive.
pub open spec fn archived_of(v: Seq<ArchivedFile>) -> Seq<(Seq<char>, Seq<char>, u64, u64)> {
    v.map_values(|a: ArchivedFile| a@)
}

/// Archive paths strictly ascend, as the archive is written from the file table.
pub open spec fn archive_sorted(a: Seq<(Seq<char>, Seq<char>, u64, u64)>) -> bool {
    forall|i: int, j: int| 0 <= i < j < a.len() ==> path_lt(#[trigger] a[i].0, #[trigger] a[j].0)
}

/// Archive entry `i` records file `f` with the size and time it has now.
pub open spec fn is_unchanged_at(
    a: Seq<(Seq<char>, Seq<char>, u64, u64)>,
    f: (Seq<char>, u64, u64),
    i: int,
) -> bool {
    0 <= i < a.len() && a[i].0 == f.0 && a[i].2 == f.1 && a[i].3 == f.2
}

/// The archived hash that file `f` may keep, where the archive records it unchanged.
pub open spec fn reusable_hash(a: Seq<(Seq<char>, Seq<char>, u64, u64)>, f: (Seq<char>, u64, u64)) -> Option<
    Seq<char>,
> {
    if exists|i: int| is_unchanged_at(a, f, i) {
        Some(a[choose|i: int| is_unchanged_at(a, f, i)].1)
    } else {
        None
    }
}

/// The plan for the files `fs`: the (path, archived hash) pairs kept, and the
/// paths to hash again, each in the order of `fs`.
pub open spec fn plan_of(
    a: Seq<(Seq<char>, Seq<char>, u64, u64)>,
    fs: Seq<(Seq<char>, u64, u64)>,
) -> (Seq<(Seq<char>, Seq<char>)>, Seq<Seq<char>>)
    decreases fs.len(),
{
    if fs.len() == 0 {
        (Seq::empty(), Seq::empty())
    } else {
        let rest = plan_of(a, fs.drop_last());
        let f = fs.last();
        match reusable_hash(a, f) {
            Some(h) => (rest.0.push((f.0, h)), rest.1),
            None => (rest.0, rest.1.push(f.0)),
        }
    }
}

/// The plan where no archive can be used: every file is hashed again.
pub open spec fn full_plan(fs: Seq<(Seq<char>, u64, u64)>) -> Seq<Seq<char>> {
    fs.map_values(|f: (Seq<char>, u64, u64)| f.0)
}

/// Whether the archive's paths strictly ascend.
fn is_archive_sorted(archive: &Vec<ArchivedFile>) -> (r: bool)
    ensures
        r == archive_sorted(archived_of(archive@)),
{
    let ghost a = archived_of(archive@);
    if archive.len() == 0 {
        return true;
    }
    let mut i: usize = 1;
    while i < archive.len()
        invariant
            a == archived_of(archive@),
            1 <= i <= archive@.len(),
            forall|x: int, y: int| 0 <= x < y < i ==> path_lt(#[trigger] a[x].0, #[trigger] a[y].0),
        decreases archive@.len() - i,
    {
        assert(a[i - 1] == archive@[i - 1]@ && a[i as int] == archive@[i as int]@);
        if !path_less(&archive[i - 1].path, &archive[i].path) {
            proof {
                if archive_sorted(a) {
                    assert(path_lt(a[i - 1].0, a[i as int].0));
                }
            }
            return false;
        }
        assert forall|x: int, y: int| 0 <= x < y < i + 1 implies path_lt(
            #[trigger] a[x].0,
            #[trigger] a[y].0,
        ) by {
            if y == i && x < i - 1 {
                lemma_path_lt_transitive(a[x].0, a[i - 1].0, a[y].0);
            }
        }
        i = i + 1;
    }
    true
}

/// The index of the archive entry of path `p`, if there is one.
fn find_archived(archive: &Vec<ArchivedFile>, p: &String) -> (r: Option<usize>)
    requires
        archive_sorted(archived_of(archive@)),
    ensures
        r is Some ==> r->0 < archive@.len() && archive@[r->0 as int].path@ == p@,
        r is None ==> forall|i: int| 0 <= i < archive@.len() ==> archive@[i].path@ != p@,
{
    let ghost a = archived_of(archive@);
    let mut lo: usize = 0;
    let mut hi: usize = archive.len();
    while lo < hi
        invariant
            a == archived_of(archive@),
            archive_sorted(a),
            hi <= archive@.len(),
            lo <= hi,
            forall|j: int| 0 <= j < lo ==> path_lt(#[trigger] a[j].0, p@),
            forall|j: int| hi <= j < a.len() ==> !path_lt(#[trigger] a[j].0, p@),
        decreases hi - lo,
    {
        let mid: usize = lo + (hi - lo) / 2;
        assert(a[mid as int] == archive@[mid as int]@);
        if path_less(&archive[mid].path, p) {
            assert forall|j: int| 0 <= j <= mid implies path_lt(#[trigger] a[j].0, p@) by {
                if j < mid {
                    lemma_path_lt_transitive(a[j].0, a[mid as int].0, p@);
                }
            }
            lo = mid + 1;
        } else {
            assert forall|j: int| mid <= j < a.len() implies !path_lt(#[trigger] a[j].0, p@) by {
                if j > mid && path_lt(a[j].0, p@) {
                    lemma_path_lt_transitive(a[mid as int].0, a[j].0, p@);
                }
            }
            hi = mid;
        }
    }
    if lo < archive.len() && archive[lo].path == *p {
        return Some(lo);
    }
    assert forall|i: int| 0 <= i < archive@.len() implies archive@[i].path@ != p@ by {
        assert(a[i] == archive@[i]@);
        lemma_path_lt_irreflexive(p@);
        if i < lo {
            assert(path_lt(a[i].0, p@));
        } else if i == lo {
            assert(a[lo as int] == archive@[lo as int]@);
        } else {
            assert(a[lo as int] == archive@[lo as int]@);
            assert(a[lo as int].0 != p@);
            assert(!path_lt(a[lo as int].0, p@));
            lemma_path_lt_total(a[lo as int].0, p@);
            assert(path_lt(p@, a[lo as int].0));
            assert(path_lt(a[lo as int].0, a[i].0));
            lemma_path_lt_transitive(p@, a[lo as int].0, a[i].0);
        }
    }
    None
}

/// Splits the files on disk into those whose archived hash can be kept and
/// those to hash again.  An archive whose paths do not strictly ascend is
/// damaged and is not used: every file is then hashed again.
pub fn plan_selective_hash(current: &Vec<FileStat>, archive: &Vec<ArchivedFile>) -> (r: (
    Vec<(String, String)>,
    Vec<String>,
))
    ensures
        archive_sorted(archived_of(archive@)) ==> (crate::file_table::pairs_of(r.0@),
            crate::file_table::paths_of(r.1@)) == plan_of(
            archived_of(archive@),
            stats_of(current@),
        ),
        !archive_sorted(archived_of(archive@)) ==> r.0@.len() == 0
            && crate::file_table::paths_of(r.1@) == full_plan(stats_of(current@)),
{
    let ghost a = archived_of(archive@);
    let ghost fs = stats_of(current@);
    let mut kept: Vec<(String, String)> = Vec::new();
    let mut again: Vec<String> = Vec::new();
    let sorted = is_archive_sorted(archive);
    let mut i: usize = 0;
    while i < current.len()
        invariant
            a == archived_of(archive@),
            fs == stats_of(current@),
            sorted == archive_sorted(a),
            i <= current@.len(),
            sorted ==> (crate::file_table::pairs_of(kept@), crate::file_table::paths_of(again@))
                == plan_of(a, fs.take(i as int)),
            !sorted ==> kept@.len() == 0 && crate::file_table::paths_of(again@) == full_plan(
                fs.take(i as int),
            ),
        decreases current@.len() - i,
    {
        let f = &current[i];
        let ghost fv = fs[i as int];
        assert(fv == current@[i as int]@);
        assert(fs.take(i + 1).drop_last() =~= fs.take(i as int));
        assert(fs.take(i + 1).last() == fv);
        let ghost k0 = kept@;
        let ghost g0 = again@;
        let mut reuse: Option<usize> = None;
        if sorted {
            match find_archived(archive, &f.path) {
                Some(j) => {
                    assert(a[j as int] == archive@[j as int]@);
                    if archive[j].size == f.size && archive[j].modified == f.modified {
                        proof {
                            assert(is_unchanged_at(a, fv, j as int));
                            let c = choose|c: int| is_unchanged_at(a, fv, c);
                            if c != j {
                                lemma_path_lt_irreflexive(fv.0);
                                if c < j {
                                    assert(path_lt(a[c].0, a[j as int].0));
                                } else {
                                    assert(path_lt(a[j as int].0, a[c].0));
                                }
                            }
                        }
                        reuse = Some(j);
                    } else {
                        assert forall|c: int| !is_unchanged_at(a, fv, c) by {
                            if 0 <= c < a.len() && c != j && a[c].0 == fv.0 {
                                lemma_path_lt_irreflexive(fv.0);
                                if c < j {
                                    assert(path_lt(a[c].0, a[j as int].0));
                                } else {
                                    assert(path_lt(a[j as int].0, a[c].0));
                                }
                            }
                        }
                    }
                },
                None => {
                    assert forall|c: int| !is_unchanged_at(a, fv, c) by {
                        if 0 <= c < a.len() {
                            assert(a[c] == archive@[c]@);
                        }
                    }
                },
            }
        }
        match reuse {
            Some(j) => {
                kept.push((f.path.clone(), archive[j].hash.clone()));
                assert(crate::file_table::pairs_of(kept@) =~= crate::file_table::pairs_of(k0).push(
                    (fv.0, a[j as int].1),
                ));
            },
            None => {
                again.push(f.path.clone());
                assert(crate::file_table::paths_of(again@) =~= crate::file_table::paths_of(g0).push(
                    fv.0,
                ));
                assert(full_plan(fs.take(i + 1)) =~= full_plan(fs.take(i as int)).push(fv.0));
            },
        }
        i = i + 1;
    }
    assert(fs.take(i as int) =~= fs);
    (kept, again)
}

/// Every archive entry that records a file of `fs` unchanged holds the hash of
/// that file's current content, as `hash_of` gives it.
pub open spec fn archive_up_to_date(
    a: Seq<(Seq<char>, Seq<char>, u64, u64)>,
    fs: Seq<(Seq<char>, u64, u64)>,
    hash_of: spec_fn(Seq<char>) -> Seq<char>,
) -> bool {
    forall|k: int, i: int|
        0 <= k < fs.len() && #[trigger] is_unchanged_at(a, fs[k], i) ==> a[i].1 == hash_of(fs[k].0)
}

/// Full hashing: every file with the hash of its content.
pub open spec fn full_hashes(
    fs: Seq<(Seq<char>, u64, u64)>,
    hash_of: spec_fn(Seq<char>) -> Seq<char>,
) -> Seq<(Seq<char>, Seq<char>)> {
    fs.map_values(|f: (Seq<char>, u64, u64)| (f.0, hash_of(f.0)))
}

/// Selective hashing: the pairs kept from the archive, then the files hashed again.
pub open spec fn selective_hashes(
    a: Seq<(Seq<char>, Seq<char>, u64, u64)>,
    fs: Seq<(Seq<char>, u64, u64)>,
    hash_of: spec_fn(Seq<char>) -> Seq<char>,
) -> Seq<(Seq<char>, Seq<char>)> {
    let p = plan_of(a, fs);
    p.0 + p.1.map_values(|q: Seq<char>| (q, hash_of(q)))
}

proof fn lemma_contains_concat<A>(s: Seq<A>, t: Seq<A>, e: A)
    ensures
        (s + t).contains(e) <==> s.contains(e) || t.contains(e),
{
    if s.contains(e) {
        let i = choose|i: int| 0 <= i < s.len() && s[i] == e;
        assert((s + t)[i] == e);
    }
    if t.contains(e) {
        let i = choose|i: int| 0 <= i < t.len() && t[i] == e;
        assert((s + t)[s.len() + i] == e);
    }
    if (s + t).contains(e) {
        let i = choose|i: int| 0 <= i < (s + t).len() && (s + t)[i] == e;
        if i < s.len() {
            assert(s[i] == e);
        } else {
            assert(t[i - s.len()] == e);
        }
    }
}

proof fn lemma_contains_push<A>(s: Seq<A>, x: A, e: A)
    ensures
        s.push(x).contains(e) <==> s.contains(e) || e == x,
{
    lemma_contains_concat(s, seq![x], e);
    assert(s.push(x) =~= s + seq![x]);
    if e == x {
        assert(seq![x][0] == e);
    }
    if seq![x].contains(e) {
        let i = choose|i: int| 0 <= i < 1 && seq![x][i] == e;
    }
}

/// With an archive that is up to date, selective hashing yields exactly the
/// (path, hash) pairs that hashing every file would: the same table.
pub proof fn lemma_selective_equals_full(
    a: Seq<(Seq<char>, Seq<char>, u64, u64)>,
    fs: Seq<(Seq<char>, u64, u64)>,
    hash_of: spec_fn(Seq<char>) -> Seq<char>,
)
    requires
        archive_up_to_date(a, fs, hash_of),
    ensures
        forall|e: (Seq<char>, Seq<char>)| #[trigger]
            selective_hashes(a, fs, hash_of).contains(e) <==> full_hashes(fs, hash_of).contains(e),
    decreases fs.len(),
{
    if fs.len() == 0 {
        assert(selective_hashes(a, fs, hash_of) =~= Seq::<(Seq<char>, Seq<char>)>::empty());
        assert(full_hashes(fs, hash_of) =~= Seq::<(Seq<char>, Seq<char>)>::empty());
    } else {
        let init = fs.drop_last();
        let f = fs.last();
        assert forall|k: int, i: int|
            0 <= k < init.len() && #[trigger] is_unchanged_at(a, init[k], i) implies a[i].1
            == hash_of(init[k].0) by {
            assert(init[k] == fs[k]);
            assert(is_unchanged_at(a, fs[k], i));
        }
        lemma_selective_equals_full(a, init, hash_of);
        let rest = plan_of(a, init);
        let again = |q: Seq<char>| (q, hash_of(q));
        let x = (f.0, hash_of(f.0));
        assert(full_hashes(fs, hash_of) =~= full_hashes(init, hash_of).push(x));
        match reusable_hash(a, f) {
            Some(h) => {
                let c = choose|c: int| is_unchanged_at(a, f, c);
                assert(fs[fs.len() - 1] == f);
                assert(is_unchanged_at(a, fs[fs.len() - 1], c));
                assert(h == hash_of(f.0));
                assert(selective_hashes(a, fs, hash_of) == rest.0.push(x) + rest.1.map_values(
                    again,
                ));
                assert forall|e: (Seq<char>, Seq<char>)| #[trigger]
                    selective_hashes(a, fs, hash_of).contains(e) <==> full_hashes(
                        fs,
                        hash_of,
                    ).contains(e) by {
                    lemma_contains_concat(rest.0.push(x), rest.1.map_values(again), e);
                    lemma_contains_push(rest.0, x, e);
                    lemma_contains_concat(rest.0, rest.1.map_values(again), e);
                    lemma_contains_push(full_hashes(init, hash_of), x, e);
                    assert(selective_hashes(a, init, hash_of).contains(e) <==> full_hashes(
                        init,
                        hash_of,
                    ).contains(e));
                }
            },
            None => {
                assert(rest.1.push(f.0).map_values(again) =~= rest.1.map_values(again).push(x));
                assert(selective_hashes(a, fs, hash_of) == rest.0 + rest.1.map_values(again).push(
                    x,
                ));
                assert forall|e: (Seq<char>, Seq<char>)| #[trigger]
                    selective_hashes(a, fs, hash_of).contains(e) <==> full_hashes(
                        fs,
                        hash_of,
                    ).contains(e) by {
                    lemma_contains_concat(rest.0, rest.1.map_values(again).push(x), e);
                    lemma_contains_push(rest.1.map_values(again), x, e);
                    lemma_contains_concat(rest.0, rest.1.map_values(again), e);
                    lemma_contains_push(full_hashes(init, hash_of), x, e);
                    assert(selective_hashes(a, init, hash_of).contains(e) <==> full_hashes(
                        init,
                        hash_of,
                    ).contains(e));
                }
            },
        }
    }
}

/// Hashing an unchanged file again gives the hash it had: where the archive
/// holds the hash of the file's content with the size and time the file still
/// has, selective hashing keeps exactly that hash.
pub proof fn lemma_unchanged_file_keeps_hash(
    a: Seq<(Seq<char>, Seq<char>, u64, u64)>,
    f: (Seq<char>, u64, u64),
    i: int,
    hash_of: spec_fn(Seq<char>) -> Seq<char>,
)
    requires
        archive_sorted(a),
        is_unchanged_at(a, f, i),
        a[i].1 == hash_of(f.0),
    ensures
        reusable_hash(a, f) == Some(hash_of(f.0)),
{
    let c = choose|c: int| is_unchanged_at(a, f, c);
    if c != i {
        lemma_path_lt_irreflexive(f.0);
        if c < i {
            assert(path_lt(a[c].0, a[i].0));
        } else {
            assert(path_lt(a[i].0, a[c].0));
        }
    }
}

/// Some archive entry records file `f` with the size and time it has now.
pub open spec fn recorded_unchanged(
    a: Seq<(Seq<char>, Seq<char>, u64, u64)>,
    f: (Seq<char>, u64, u64),
) -> bool {
    exists|i: int| is_unchanged_at(a, f, i)
}

/// The archive round trip: where the archive records every file on disk with
/// the size and time it still has, selective hashing reads no file again and
/// keeps, for each file in turn, the hash that the archive recorded for it.
pub proof fn lemma_unchanged_files_keep_hashes(
    a: Seq<(Seq<char>, Seq<char>, u64, u64)>,
    fs: Seq<(Seq<char>, u64, u64)>,
)
    requires
        forall|k: int| 0 <= k < fs.len() ==> recorded_unchanged(a, #[trigger] fs[k]),
    ensures
        plan_of(a, fs).1.len() == 0,
        plan_of(a, fs).0.len() == fs.len(),
        forall|x: int|
            0 <= x < fs.len() ==> (#[trigger] plan_of(a, fs).0[x]).0 == fs[x].0 && exists|i: int|
                is_unchanged_at(a, fs[x], i) && plan_of(a, fs).0[x].1 == a[i].1,
    decreases fs.len(),
{
    if fs.len() > 0 {
        let init = fs.drop_last();
        assert forall|k: int| 0 <= k < init.len() implies recorded_unchanged(a, #[trigger] init[k]) by {
            assert(init[k] == fs[k]);
        }
        lemma_unchanged_files_keep_hashes(a, init);
        let f = fs.last();
        assert(fs[fs.len() - 1] == f);
        assert(recorded_unchanged(a, fs[fs.len() - 1]));
        let c = choose|c: int| is_unchanged_at(a, f, c);
        let rest = plan_of(a, init);
        assert(plan_of(a, fs).0 == rest.0.push((f.0, a[c].1)));
        assert forall|x: int| 0 <= x < fs.len() implies (#[trigger] plan_of(a, fs).0[x]).0
            == fs[x].0 && exists|i: int| is_unchanged_at(a, fs[x], i) && plan_of(a, fs).0[x].1
            == a[i].1 by {
            if x < init.len() {
                assert(plan_of(a, fs).0[x] == rest.0[x]);
                assert(init[x] == fs[x]);
            } else {
                assert(is_unchanged_at(a, fs[x], c));
            }
        }
    }
}

/// Some file on disk has path `p`.
pub open spec fn on_disk(fs: Seq<(Seq<char>, u64, u64)>, p: Seq<char>) -> bool {
    exists|k: int| 0 <= k < fs.len() && #[trigger] fs[k].0 == p
}

/// The archive round trip for the whole table: where the archive was written
/// from table `t`, the files on disk are those of `t` and none has changed,
/// the table built from what selective hashing keeps (`t2`, as `from_hashes`
/// builds it) is `t` again, entry for entry.
pub proof fn lemma_archive_round_trip(
    t: Seq<(Seq<char>, Seq<char>)>,
    a: Seq<(Seq<char>, Seq<char>, u64, u64)>,
    fs: Seq<(Seq<char>, u64, u64)>,
    t2: Seq<(Seq<char>, Seq<char>)>,
)
    requires
        strictly_sorted(t),
        forall|i: int| 0 <= i < a.len() ==> t.contains((#[trigger] a[i].0, a[i].1)),
        forall|k: int| 0 <= k < fs.len() ==> recorded_unchanged(a, #[trigger] fs[k]),
        forall|y: int| 0 <= y < t.len() ==> #[trigger] on_disk(fs, t[y].0),
        strictly_sorted(t2),
        forall|p: Seq<char>| #[trigger]
            entries_map(t2).contains_key(p) <==> has_path(plan_of(a, fs).0, p),
        forall|p: Seq<char>| #[trigger]
            entries_map(t2).contains_key(p) ==> plan_of(a, fs).0.contains((p, entries_map(t2)[p])),
    ensures
        t2 == t,
{
    lemma_unchanged_files_keep_hashes(a, fs);
    let kept = plan_of(a, fs).0;
    assert forall|p: Seq<char>| #[trigger] entries_map(t2).contains_key(p) == entries_map(
        t,
    ).contains_key(p) by {
        if has_path(kept, p) {
            let x = choose|x: int| 0 <= x < kept.len() && #[trigger] kept[x].0 == p;
            let i = choose|i: int| is_unchanged_at(a, fs[x], i) && kept[x].1 == a[i].1;
            assert(t.contains((a[i].0, a[i].1)));
            let y = choose|y: int| 0 <= y < t.len() && t[y] == (a[i].0, a[i].1);
            assert(t[y].0 == p);
            assert(has_path(t, p));
        }
        if has_path(t, p) {
            let y = choose|y: int| 0 <= y < t.len() && #[trigger] t[y].0 == p;
            assert(on_disk(fs, t[y].0));
            let k = choose|k: int| 0 <= k < fs.len() && #[trigger] fs[k].0 == t[y].0;
            assert(kept[k].0 == p);
            assert(has_path(kept, p));
        }
    }
    assert forall|p: Seq<char>| #[trigger] entries_map(t2).contains_key(p) implies entries_map(
        t2,
    )[p] == entries_map(t)[p] by {
        let v = entries_map(t2)[p];
        let x = choose|x: int| 0 <= x < kept.len() && kept[x] == (p, v);
        let i = choose|i: int| is_unchanged_at(a, fs[x], i) && kept[x].1 == a[i].1;
        assert(t.contains((a[i].0, a[i].1)));
        let y = choose|y: int| 0 <= y < t.len() && t[y] == (a[i].0, a[i].1);
        lemma_entry_in_map(t, y);
    }
    assert(entries_map(t2) =~= entries_map(t));
    lemma_sorted_table_determined(t2, t);
}

} // verus!
