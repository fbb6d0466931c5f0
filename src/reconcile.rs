//! Folding an incremental update into the per-project file lists and the list
//! of files that no project owns.

use vstd::prelude::*;
use vstd::utf8::encode_utf8;
use crate::file_table::{pairs_of, paths_of, views_of, FileData};

verus! {

/// Files of one project, in the order they were recorded.
pub struct ProjectFileList {
    pub project: String,
    pub files: Vec<FileData>,
}

impl View for ProjectFileList {
    type V = (Seq<char>, Seq<(Seq<char>, Seq<char>)>);

    open spec fn view(&self) -> (Seq<char>, Seq<(Seq<char>, Seq<char>)>) {
        (self.project@, views_of(self.files@))
    }
}

/// A project root declaration: files under `root` belong to `project`.
pub struct ProjectRoot {
    pub root: String,
    pub project: String,
}

impl View for ProjectRoot {
    type V = (Seq<char>, Seq<char>);

    open spec fn view(&self) -> (Seq<char>, Seq<char>) {
        (self.root@, self.project@)
    }
}

/// The (project, entries) pairs that the project lists hold.
pub open spec fn lists_of(v: Seq<ProjectFileList>) -> Seq<
    (Seq<char>, Seq<(Seq<char>, Seq<char>)>),
> {
    v.map_values(|l: ProjectFileList| l@)
}

/// The (root, project) pairs that the declarations hold.
pub open spec fn roots_of(v: Seq<ProjectRoot>) -> Seq<(Seq<char>, Seq<char>)> {
    v.map_values(|r: ProjectRoot| r@)
}

/// `root` is the path itself or one of its ancestor directories.  Roots are
/// workspace-relative directories, so a root written `""` or `"."` is no
/// ancestor of any path and owns no file.
pub open spec fn is_root_of(root: Seq<char>, path: Seq<char>) -> bool {
    let r = encode_utf8(root);
    let p = encode_utf8(path);
    r == p || (r.len() < p.len() && p.subrange(0, r.len() as int) == r && p[r.len() as int]
        == 47u8)
}

/// The length of a root in bytes.
pub open spec fn root_len(root: Seq<char>) -> nat {
    encode_utf8(root).len()
}

/// Declaration `i` is the longest root of `p`, the first among equally long ones.
pub open spec fn is_best_root(m: Seq<(Seq<char>, Seq<char>)>, p: Seq<char>, i: int) -> bool {
    &&& 0 <= i < m.len()
    &&& is_root_of(m[i].0, p)
    &&& forall|j: int|
        0 <= j < m.len() && is_root_of(#[trigger] m[j].0, p) ==> root_len(m[j].0) < root_len(
            m[i].0,
        ) || (root_len(m[j].0) == root_len(m[i].0) && i <= j)
}

/// The project that owns path `p`: that of its longest declared root.
pub open spec fn owner(m: Seq<(Seq<char>, Seq<char>)>, p: Seq<char>) -> Option<Seq<char>> {
    if exists|i: int| is_best_root(m, p, i) {
        Some(m[choose|i: int| is_best_root(m, p, i)].1)
    } else {
        None
    }
}

/// Index `i` is the first whose key is `k`.
pub open spec fn is_first_with_key<V>(s: Seq<(Seq<char>, V)>, k: Seq<char>, i: int) -> bool {
    0 <= i < s.len() && s[i].0 == k && forall|j: int| 0 <= j < i ==> #[trigger] s[j].0 != k
}

/// The first index whose key is `k`, or -1 where there is none.
pub open spec fn first_with_key<V>(s: Seq<(Seq<char>, V)>, k: Seq<char>) -> int {
    if exists|i: int| is_first_with_key(s, k, i) {
        choose|i: int| is_first_with_key(s, k, i)
    } else {
        -1
    }
}

/// `l` without any entry of path `p`.
pub open spec fn drop_path(l: Seq<(Seq<char>, Seq<char>)>, p: Seq<char>) -> Seq<
    (Seq<char>, Seq<char>),
>
    decreases l.len(),
{
    if l.len() == 0 {
        l
    } else if l.last().0 == p {
        drop_path(l.drop_last(), p)
    } else {
        drop_path(l.drop_last(), p).push(l.last())
    }
}

/// Sets the hash of `p` in a list: in place of its first entry, where it is
/// listed (any later entry of `p` is dropped), at the end otherwise.
pub open spec fn set_in_list(l: Seq<(Seq<char>, Seq<char>)>, p: Seq<char>, h: Seq<char>) -> Seq<
    (Seq<char>, Seq<char>),
> {
    let i = first_with_key(l, p);
    if i >= 0 {
        l.take(i).push((p, h)) + drop_path(l.skip(i + 1), p)
    } else {
        l.push((p, h))
    }
}

/// List `k` gets hash `h` for `p`; every other list loses any entry of `p`
/// (all of them do where `k` is -1).
pub open spec fn place(
    lists: Seq<(Seq<char>, Seq<(Seq<char>, Seq<char>)>)>,
    k: int,
    p: Seq<char>,
    h: Seq<char>,
) -> Seq<(Seq<char>, Seq<(Seq<char>, Seq<char>)>)> {
    Seq::new(
        lists.len(),
        |j: int|
            if j == k {
                (lists[j].0, set_in_list(lists[j].1, p, h))
            } else {
                (lists[j].0, drop_path(lists[j].1, p))
            },
    )
}

/// The index of the list of the project that owns `p`, or -1 where no listed
/// project owns it.
pub open spec fn owner_list(
    m: Seq<(Seq<char>, Seq<char>)>,
    lists: Seq<(Seq<char>, Seq<(Seq<char>, Seq<char>)>)>,
    p: Seq<char>,
) -> int {
    match owner(m, p) {
        Some(n) => first_with_key(lists, n),
        None => -1,
    }
}

/// The per-project lists and the unowned list.
pub type FileMapModel = (Seq<(Seq<char>, Seq<(Seq<char>, Seq<char>)>)>, Seq<(Seq<char>, Seq<char>)>);

/// Records the new hash `h` of path `p`: in the list of its owner, or in the
/// unowned list where no listed project owns it; every other place loses `p`,
/// so the path ends up listed once.
pub open spec fn record_update(
    fm: FileMapModel,
    m: Seq<(Seq<char>, Seq<char>)>,
    p: Seq<char>,
    h: Seq<char>,
) -> FileMapModel {
    let k = owner_list(m, fm.0, p);
    if k >= 0 {
        (place(fm.0, k, p, h), drop_path(fm.1, p))
    } else {
        (place(fm.0, -1, p, h), set_in_list(fm.1, p, h))
    }
}

/// Forgets path `p` in the list of the project that owns it, where one is
/// listed, and in the unowned list; other projects' lists are left as they are.
pub open spec fn record_delete(
    fm: FileMapModel,
    m: Seq<(Seq<char>, Seq<char>)>,
    p: Seq<char>,
) -> FileMapModel {
    let k = owner_list(m, fm.0, p);
    let lists = if k >= 0 {
        fm.0.update(k, (fm.0[k].0, drop_path(fm.0[k].1, p)))
    } else {
        fm.0
    };
    (lists, drop_path(fm.1, p))
}

/// Records each new hash in turn.
pub open spec fn record_updates(
    fm: FileMapModel,
    m: Seq<(Seq<char>, Seq<char>)>,
    updated: Seq<(Seq<char>, Seq<char>)>,
) -> FileMapModel
    decreases updated.len(),
{
    if updated.len() == 0 {
        fm
    } else {
        record_update(
            record_updates(fm, m, updated.drop_last()),
            m,
            updated.last().0,
            updated.last().1,
        )
    }
}

/// Forgets each deleted path in turn.
pub open spec fn record_deletes(
    fm: FileMapModel,
    m: Seq<(Seq<char>, Seq<char>)>,
    deleted: Seq<Seq<char>>,
) -> FileMapModel
    decreases deleted.len(),
{
    if deleted.len() == 0 {
        fm
    } else {
        record_delete(record_deletes(fm, m, deleted.drop_last()), m, deleted.last())
    }
}

/// The file map after an update: each new hash recorded in turn, then each
/// deleted path removed.
pub open spec fn reconciled(
    fm: FileMapModel,
    m: Seq<(Seq<char>, Seq<char>)>,
    updated: Seq<(Seq<char>, Seq<char>)>,
    deleted: Seq<Seq<char>>,
) -> FileMapModel {
    record_deletes(record_updates(fm, m, updated), m, deleted)
}

/// Whether `root` is the path itself or one of its ancestor directories.
pub fn is_root_of_path(root: &String, path: &String) -> (r: bool)
    ensures
        r == is_root_of(root@, path@),
{
    let x: &[u8] = root.as_str().as_bytes();
    let y: &[u8] = path.as_str().as_bytes();
    if x.len() > y.len() {
        return false;
    }
    let mut i: usize = 0;
    while i < x.len()
        invariant
            x@ == encode_utf8(root@),
            y@ == encode_utf8(path@),
            x@.len() <= y@.len(),
            i <= x@.len(),
            forall|k: int| 0 <= k < i ==> x@[k] == y@[k],
        decreases x@.len() - i,
    {
        if x[i] != y[i] {
            return false;
        }
        i = i + 1;
    }
    assert(y@.subrange(0, x@.len() as int) =~= x@);
    if x.len() == y.len() {
        assert(x@ =~= y@);
        true
    } else {
        y[x.len()] == 47u8
    }
}

/// The declaration of the longest root of `path` (the first among equally long
/// ones), or `None` where no declared root holds the path.
pub fn find_project_for_path(roots: &Vec<ProjectRoot>, path: &String) -> (r: Option<usize>)
    ensures
        r is Some ==> is_best_root(roots_of(roots@), path@, r->0 as int),
        r is None ==> forall|j: int|
            0 <= j < roots@.len() ==> !is_root_of(#[trigger] roots_of(roots@)[j].0, path@),
{
    let ghost m = roots_of(roots@);
    let mut best: Option<usize> = None;
    let mut best_len: usize = 0;
    let mut i: usize = 0;
    while i < roots.len()
        invariant
            m == roots_of(roots@),
            i <= roots@.len(),
            best is Some ==> {
                let b = best->0 as int;
                &&& 0 <= b < i
                &&& is_root_of(m[b].0, path@)
                &&& best_len == root_len(m[b].0)
                &&& forall|j: int|
                    0 <= j < i && is_root_of(#[trigger] m[j].0, path@) ==> root_len(m[j].0)
                        < root_len(m[b].0) || (root_len(m[j].0) == root_len(m[b].0) && b <= j)
            },
            best is None ==> forall|j: int| 0 <= j < i ==> !is_root_of(#[trigger] m[j].0, path@),
        decreases roots@.len() - i,
    {
        assert(m[i as int] == roots@[i as int]@);
        if is_root_of_path(&roots[i].root, path) {
            let len = roots[i].root.as_str().as_bytes().len();
            assert(len == root_len(m[i as int].0));
            let better = match best {
                None => true,
                Some(_) => len > best_len,
            };
            if better {
                best = Some(i);
                best_len = len;
            }
        }
        i = i + 1;
    }
    best
}

/// The first index of `l` whose path is `p`.
fn first_file_index(l: &Vec<FileData>, p: &String) -> (r: Option<usize>)
    ensures
        r is Some ==> r->0 == first_with_key(views_of(l@), p@),
        r is None ==> first_with_key(views_of(l@), p@) == -1,
{
    let ghost s = views_of(l@);
    let mut i: usize = 0;
    while i < l.len()
        invariant
            s == views_of(l@),
            i <= l@.len(),
            forall|j: int| 0 <= j < i ==> #[trigger] s[j].0 != p@,
        decreases l@.len() - i,
    {
        assert(s[i as int] == l@[i as int]@);
        if l[i].file == *p {
            assert(is_first_with_key(s, p@, i as int));
            return Some(i);
        }
        i = i + 1;
    }
    assert(!exists|k: int| is_first_with_key(s, p@, k));
    None
}

/// The first index of `lists` whose project is `name`.
fn first_project_index(lists: &Vec<ProjectFileList>, name: &String) -> (r: Option<usize>)
    ensures
        r is Some ==> r->0 == first_with_key(lists_of(lists@), name@) && r->0 < lists@.len(),
        r is None ==> first_with_key(lists_of(lists@), name@) == -1,
        r is None ==> forall|j: int| 0 <= j < lists@.len() ==> #[trigger] lists_of(lists@)[j].0 != name@,
{
    let ghost s = lists_of(lists@);
    let mut i: usize = 0;
    while i < lists.len()
        invariant
            s == lists_of(lists@),
            i <= lists@.len(),
            forall|j: int| 0 <= j < i ==> #[trigger] s[j].0 != name@,
        decreases lists@.len() - i,
    {
        assert(s[i as int] == lists@[i as int]@);
        if lists[i].project == *name {
            assert(is_first_with_key(s, name@, i as int));
            return Some(i);
        }
        i = i + 1;
    }
    assert(!exists|k: int| is_first_with_key(s, name@, k));
    None
}

proof fn lemma_best_root_unique(m: Seq<(Seq<char>, Seq<char>)>, p: Seq<char>, i: int, j: int)
    requires
        is_best_root(m, p, i),
        is_best_root(m, p, j),
    ensures
        i == j,
{
    assert(is_root_of(m[j].0, p));
    assert(is_root_of(m[i].0, p));
}

/// The index of the list of the project that owns `path`, where one is listed.
fn owner_list_index(roots: &Vec<ProjectRoot>, lists: &Vec<ProjectFileList>, path: &String) -> (r:
    Option<usize>)
    ensures
        r is Some ==> r->0 as int == owner_list(roots_of(roots@), lists_of(lists@), path@)
            && r->0 < lists@.len(),
        r is None ==> owner_list(roots_of(roots@), lists_of(lists@), path@) == -1,
{
    let ghost m = roots_of(roots@);
    match find_project_for_path(roots, path) {
        None => {
            proof {
                if exists|i: int| is_best_root(m, path@, i) {
                    let i = choose|i: int| is_best_root(m, path@, i);
                    assert(is_root_of(m[i].0, path@));
                }
            }
            None
        },
        Some(i) => {
            proof {
                let b = choose|b: int| is_best_root(m, path@, b);
                lemma_best_root_unique(m, path@, b, i as int);
                assert(m[i as int] == roots@[i as int]@);
                assert(owner(m, path@) == Some(roots@[i as int].project@));
            }
            first_project_index(lists, &roots[i].project)
        },
    }
}

proof fn lemma_views_push(v: Seq<FileData>, x: FileData)
    ensures
        views_of(v.push(x)) == views_of(v).push(x@),
{
    assert(views_of(v.push(x)) =~= views_of(v).push(x@));
}

/// Drops every entry of `p` from `l`.
fn drop_in_files(l: &mut Vec<FileData>, p: &String)
    ensures
        views_of(final(l)@) == drop_path(views_of(old(l)@), p@),
{
    let ghost s = views_of(l@);
    let mut out: Vec<FileData> = Vec::new();
    let mut j: usize = 0;
    while j < l.len()
        invariant
            s == views_of(l@),
            j <= l@.len(),
            views_of(out@) == drop_path(s.take(j as int), p@),
        decreases l@.len() - j,
    {
        assert(s.take(j + 1).drop_last() =~= s.take(j as int));
        assert(s.take(j + 1).last() == l@[j as int]@);
        if l[j].file != *p {
            let e = l[j].duplicate();
            proof {
                lemma_views_push(out@, e);
            }
            out.push(e);
        }
        j = j + 1;
    }
    assert(s.take(j as int) =~= s);
    *l = out;
}

/// Sets the hash of `p` in `l`, as `set_in_list` says.
fn set_in_files(l: &mut Vec<FileData>, p: String, h: String)
    ensures
        views_of(final(l)@) == set_in_list(views_of(old(l)@), p@, h@),
{
    let ghost s = views_of(l@);
    let ghost pv = p@;
    let ghost hv = h@;
    match first_file_index(l, &p) {
        Some(i) => {
            proof {
                let c = choose|c: int| is_first_with_key(s, pv, c);
                assert(is_first_with_key(s, pv, c));
                assert(i as int == c);
                assert(s.len() == l@.len());
            }
            let mut out: Vec<FileData> = Vec::new();
            let mut j: usize = 0;
            while j < i
                invariant
                    s == views_of(l@),
                    i < l@.len(),
                    j <= i,
                    views_of(out@) == s.take(j as int),
                decreases i - j,
            {
                let e = l[j].duplicate();
                proof {
                    lemma_views_push(out@, e);
                }
                out.push(e);
                assert(s.take(j + 1) =~= s.take(j as int).push(l@[j as int]@));
                j = j + 1;
            }
            let fresh = FileData { file: p.clone(), hash: h };
            proof {
                lemma_views_push(out@, fresh);
            }
            out.push(fresh);
            let ghost head = s.take(i as int).push((pv, hv));
            let ghost tail = s.skip(i + 1);
            assert(tail.take(0) =~= Seq::<(Seq<char>, Seq<char>)>::empty());
            assert(views_of(out@) =~= head + drop_path(tail.take(0), pv));
            let n = l.len();
            assert(i < n);
            j = i + 1;
            while j < l.len()
                invariant
                    s == views_of(l@),
                    tail == s.skip(i + 1),
                    i < j <= l@.len(),
                    views_of(out@) == head + drop_path(tail.take(j - i - 1), pv),
                    p@ == pv,
                decreases l@.len() - j,
            {
                assert(tail.take(j - i) =~= tail.take(j - i - 1).push(s[j as int]));
                assert(tail.take(j - i).drop_last() =~= tail.take(j - i - 1));
                assert(tail.take(j - i).last() == s[j as int]);
                assert(s[j as int] == l@[j as int]@);
                if l[j].file != p {
                    let e = l[j].duplicate();
                    proof {
                        lemma_views_push(out@, e);
                    }
                    out.push(e);
                    assert(head + drop_path(tail.take(j - i - 1), pv).push(s[j as int]) =~= (head
                        + drop_path(tail.take(j - i - 1), pv)).push(s[j as int]));
                    assert(views_of(out@) == head + drop_path(tail.take(j - i), pv));
                }
                j = j + 1;
            }
            assert(tail.take(j - i - 1) =~= tail);
            *l = out;
        },
        None => {
            let fresh = FileData { file: p, hash: h };
            proof {
                lemma_views_push(l@, fresh);
            }
            l.push(fresh);
        },
    }
}

/// Gives list `k` hash `h` for `p`, and drops `p` from every other list.
fn place_in_lists(projects: &mut Vec<ProjectFileList>, k: Option<usize>, p: &String, h: &String)
    ensures
        lists_of(final(projects)@) == place(
            lists_of(old(projects)@),
            match k {
                Some(x) => x as int,
                None => -1,
            },
            p@,
            h@,
        ),
{
    let ghost l0 = lists_of(projects@);
    let ghost ki: int = match k {
        Some(x) => x as int,
        None => -1,
    };
    let ghost target = place(l0, ki, p@, h@);
    let mut j: usize = 0;
    while j < projects.len()
        invariant
            projects@.len() == l0.len(),
            ki == (match k {
                Some(x) => x as int,
                None => -1,
            }),
            target == place(l0, ki, p@, h@),
            j <= projects@.len(),
            forall|x: int| 0 <= x < j ==> #[trigger] lists_of(projects@)[x] == target[x],
            forall|x: int| j <= x < projects@.len() ==> #[trigger] lists_of(projects@)[x] == l0[x],
        decreases projects@.len() - j,
    {
        let ghost before = projects@;
        assert(lists_of(before)[j as int] == l0[j as int]);
        assert(l0[j as int] == before[j as int]@);
        if k == Some(j) {
            assert(ki == j);
            set_in_files(&mut projects[j].files, p.clone(), h.clone());
            assert(projects@[j as int].project == before[j as int].project);
            assert(lists_of(projects@)[j as int] == projects@[j as int]@);
        } else {
            assert(ki != j);
            drop_in_files(&mut projects[j].files, p);
            assert(projects@[j as int].project == before[j as int].project);
            assert(lists_of(projects@)[j as int] == projects@[j as int]@);
        }
        assert(projects@.len() == before.len());
        assert forall|x: int| 0 <= x < projects@.len() && x != j implies #[trigger] lists_of(
            projects@,
        )[x] == lists_of(before)[x] by {
            assert(projects@[x] == before[x]);
        }
        assert(lists_of(projects@)[j as int] == target[j as int]);
        j = j + 1;
    }
    assert(lists_of(projects@) =~= target);
}

/// Folds an incremental update into the per-project lists and the unowned list.
/// Each new hash goes to the list of the project that owns its path (replacing
/// the entry of that path, or appended), or to `global` where no listed project
/// owns it.  The updated path also leaves every other list and, where a project
/// owns it, the unowned list: an entry that an earlier owner or an earlier run
/// left elsewhere does not survive, so the path is listed once afterwards (this
/// is the answer chosen for an updated path that moved between owners).  Then
/// each deleted path leaves the list of the project that owns it and the
/// unowned list; other projects' lists keep their entries.
pub fn update_project_files(
    roots: &Vec<ProjectRoot>,
    projects: &mut Vec<ProjectFileList>,
    global: &mut Vec<FileData>,
    updated: &Vec<(String, String)>,
    deleted: &Vec<String>,
)
    ensures
        (lists_of(final(projects)@), views_of(final(global)@)) == reconciled(
            (lists_of(old(projects)@), views_of(old(global)@)),
            roots_of(roots@),
            pairs_of(updated@),
            paths_of(deleted@),
        ),
{
    let ghost m = roots_of(roots@);
    let ghost fm0: FileMapModel = (lists_of(projects@), views_of(global@));
    let mut j: usize = 0;
    while j < updated.len()
        invariant
            m == roots_of(roots@),
            j <= updated@.len(),
            (lists_of(projects@), views_of(global@)) == record_updates(
                fm0,
                m,
                pairs_of(updated@).take(j as int),
            ),
        decreases updated@.len() - j,
    {
        let p = &updated[j].0;
        let h = &updated[j].1;
        match owner_list_index(roots, projects, p) {
            Some(k) => {
                place_in_lists(projects, Some(k), p, h);
                drop_in_files(global, p);
            },
            None => {
                place_in_lists(projects, None, p, h);
                set_in_files(global, p.clone(), h.clone());
            },
        }
        assert(pairs_of(updated@).take(j + 1).drop_last() =~= pairs_of(updated@).take(j as int));
        j = j + 1;
    }
    assert(pairs_of(updated@).take(j as int) =~= pairs_of(updated@));
    let ghost fm1: FileMapModel = (lists_of(projects@), views_of(global@));
    let mut i: usize = 0;
    while i < deleted.len()
        invariant
            m == roots_of(roots@),
            i <= deleted@.len(),
            (lists_of(projects@), views_of(global@)) == record_deletes(
                fm1,
                m,
                paths_of(deleted@).take(i as int),
            ),
        decreases deleted@.len() - i,
    {
        let ghost before: FileMapModel = (lists_of(projects@), views_of(global@));
        let p = &deleted[i];
        match owner_list_index(roots, projects, p) {
            Some(k) => {
                let ghost b = projects@;
                drop_in_files(&mut projects[k].files, p);
                assert(projects@[k as int].project == b[k as int].project);
                assert forall|x: int| 0 <= x < projects@.len() && x != k implies #[trigger] projects@[x]
                    == b[x] by {}
                assert(lists_of(projects@) =~= before.0.update(
                    k as int,
                    (before.0[k as int].0, drop_path(before.0[k as int].1, p@)),
                ));
            },
            None => {},
        }
        drop_in_files(global, p);
        assert(paths_of(deleted@).take(i + 1).drop_last() =~= paths_of(deleted@).take(i as int));
        i = i + 1;
    }
    assert(paths_of(deleted@).take(i as int) =~= paths_of(deleted@));
}

/// No path is listed in two places: not in two projects' lists, and not in a
/// project's list and the unowned list.
pub open spec fn listed_once(fm: FileMapModel) -> bool {
    &&& forall|k1: int, e1: int, k2: int, e2: int|
        0 <= k1 < fm.0.len() && 0 <= e1 < fm.0[k1].1.len() && 0 <= k2 < fm.0.len() && 0 <= e2
            < fm.0[k2].1.len() && #[trigger] fm.0[k1].1[e1].0 == #[trigger] fm.0[k2].1[e2].0
            ==> k1 == k2
    &&& forall|k: int, e: int, g: int|
        0 <= k < fm.0.len() && 0 <= e < fm.0[k].1.len() && 0 <= g < fm.1.len() ==> #[trigger] fm.0[k].1[e].0
            != #[trigger] fm.1[g].0
}

/// Entry `e` of list `k` has path `p`.
pub open spec fn in_list_at(fm: FileMapModel, p: Seq<char>, k: int, e: int) -> bool {
    0 <= k < fm.0.len() && 0 <= e < fm.0[k].1.len() && fm.0[k].1[e].0 == p
}

/// Entry `g` of the unowned list has path `p`.
pub open spec fn in_global_at(fm: FileMapModel, p: Seq<char>, g: int) -> bool {
    0 <= g < fm.1.len() && fm.1[g].0 == p
}

/// Path `p` has exactly one entry in the whole file map, and its hash is `h`.
pub open spec fn listed_exactly_once(fm: FileMapModel, p: Seq<char>, h: Seq<char>) -> bool {
    ||| exists|k: int, e: int|
        #[trigger] in_list_at(fm, p, k, e) && fm.0[k].1[e].1 == h && (forall|k2: int, e2: int|
            #[trigger] in_list_at(fm, p, k2, e2) ==> k2 == k && e2 == e) && (forall|g: int|
            !#[trigger] in_global_at(fm, p, g))
    ||| exists|g: int|
        #[trigger] in_global_at(fm, p, g) && fm.1[g].1 == h && (forall|g2: int|
            #[trigger] in_global_at(fm, p, g2) ==> g2 == g) && (forall|k: int, e: int|
            !#[trigger] in_list_at(fm, p, k, e))
}

proof fn lemma_first_exists<V>(s: Seq<(Seq<char>, V)>, k: Seq<char>, j: int)
    requires
        0 <= j < s.len(),
        s[j].0 == k,
    ensures
        exists|i: int| is_first_with_key(s, k, i),
    decreases j,
{
    if exists|x: int| 0 <= x < j && #[trigger] s[x].0 == k {
        let x = choose|x: int| 0 <= x < j && #[trigger] s[x].0 == k;
        lemma_first_exists(s, k, x);
    } else {
        assert(is_first_with_key(s, k, j));
    }
}

/// What `drop_path` keeps: entries of other paths, each taken from `l`.
proof fn lemma_drop_path_entries(l: Seq<(Seq<char>, Seq<char>)>, p: Seq<char>)
    ensures
        forall|x: int|
            0 <= x < drop_path(l, p).len() ==> (#[trigger] drop_path(l, p)[x]).0 != p
                && l.contains(drop_path(l, p)[x]),
    decreases l.len(),
{
    if l.len() > 0 {
        let init = l.drop_last();
        lemma_drop_path_entries(init, p);
        let d = drop_path(l, p);
        assert forall|x: int| 0 <= x < d.len() implies (#[trigger] d[x]).0 != p && l.contains(d[x]) by {
            if x < drop_path(init, p).len() {
                assert(d[x] == drop_path(init, p)[x]);
                let y = choose|y: int| 0 <= y < init.len() && init[y] == d[x];
                assert(l[y] == d[x]);
            } else {
                assert(d[x] == l[l.len() - 1]);
            }
        }
    }
}

/// What `set_in_list` gives: one entry of `p`, with hash `h`; every other entry
/// is taken from `l`.
proof fn lemma_set_in_list_entries(l: Seq<(Seq<char>, Seq<char>)>, p: Seq<char>, h: Seq<char>)
    ensures
        exists|x: int|
            0 <= x < set_in_list(l, p, h).len() && #[trigger] set_in_list(l, p, h)[x] == (p, h),
        forall|x: int, y: int|
            0 <= x < set_in_list(l, p, h).len() && 0 <= y < set_in_list(l, p, h).len()
                && #[trigger] set_in_list(l, p, h)[x].0 == p && #[trigger] set_in_list(l, p, h)[y].0
                == p ==> x == y,
        forall|x: int|
            0 <= x < set_in_list(l, p, h).len() && (#[trigger] set_in_list(l, p, h)[x]).0 != p
                ==> l.contains(set_in_list(l, p, h)[x]),
{
    let r = set_in_list(l, p, h);
    let i = first_with_key(l, p);
    if i >= 0 {
        let c = choose|c: int| is_first_with_key(l, p, c);
        let tail = l.skip(i + 1);
        let d = drop_path(tail, p);
        lemma_drop_path_entries(tail, p);
        assert(r[i] == (p, h));
        assert forall|x: int| 0 <= x < r.len() && x != i implies (#[trigger] r[x]).0 != p
            && l.contains(r[x]) by {
            if x < i {
                assert(r[x] == l[x]);
            } else {
                assert(r[x] == d[x - i - 1]);
                let y = choose|y: int| 0 <= y < tail.len() && tail[y] == d[x - i - 1];
                assert(l[y + i + 1] == r[x]);
            }
        }
    } else {
        assert(r[l.len() as int] == (p, h));
        assert forall|x: int| 0 <= x < l.len() implies #[trigger] l[x].0 != p by {
            if l[x].0 == p {
                lemma_first_exists(l, p, x);
            }
        }
        assert forall|x: int| 0 <= x < r.len() && x != l.len() implies (#[trigger] r[x]).0 != p
            && l.contains(r[x]) by {
            assert(r[x] == l[x]);
        }
    }
}

/// After recording hash `h` of `p`, the path has exactly one entry, with hash
/// `h`; where no path was listed in two places, none is afterwards.
pub proof fn lemma_record_update_once(
    fm: FileMapModel,
    m: Seq<(Seq<char>, Seq<char>)>,
    p: Seq<char>,
    h: Seq<char>,
)
    ensures
        listed_exactly_once(record_update(fm, m, p, h), p, h),
        listed_once(fm) ==> listed_once(record_update(fm, m, p, h)),
{
    let r = record_update(fm, m, p, h);
    let k = owner_list(m, fm.0, p);
    assert forall|j: int| 0 <= j < fm.0.len() && j != k implies forall|e: int|
        0 <= e < (#[trigger] r.0[j]).1.len() ==> r.0[j].1[e].0 != p && fm.0[j].1.contains(
            r.0[j].1[e],
        ) by {
        lemma_drop_path_entries(fm.0[j].1, p);
    }
    if k >= 0 {
        let c = choose|c: int| is_first_with_key(fm.0, owner(m, p)->0, c);
        lemma_set_in_list_entries(fm.0[k].1, p, h);
        lemma_drop_path_entries(fm.1, p);
        let e = choose|x: int| 0 <= x < r.0[k].1.len() && #[trigger] r.0[k].1[x] == (p, h);
        assert(in_list_at(r, p, k, e));
        assert forall|k2: int, e2: int| #[trigger] in_list_at(r, p, k2, e2) implies k2 == k && e2
            == e by {
            if k2 != k {
                assert(r.0[k2].1[e2].0 != p);
            }
        }
        assert forall|g: int| !#[trigger] in_global_at(r, p, g) by {}
    } else {
        lemma_set_in_list_entries(fm.1, p, h);
        let g = choose|x: int| 0 <= x < r.1.len() && #[trigger] r.1[x] == (p, h);
        assert(in_global_at(r, p, g));
        assert forall|k2: int, e2: int| !#[trigger] in_list_at(r, p, k2, e2) by {
            if 0 <= k2 < r.0.len() && 0 <= e2 < r.0[k2].1.len() {
                assert(r.0[k2].1[e2].0 != p);
            }
        }
    }
    if listed_once(fm) {
        // Each entry of another path comes from the same list (or the unowned list) before.
        if k >= 0 {
            lemma_set_in_list_entries(fm.0[k].1, p, h);
            lemma_drop_path_entries(fm.1, p);
        } else {
            lemma_set_in_list_entries(fm.1, p, h);
        }
        assert forall|j: int, e: int|
            #![trigger r.0[j].1[e]]
            0 <= j < r.0.len() && 0 <= e < r.0[j].1.len() && r.0[j].1[e].0 != p implies exists|
            f: int,
        | 0 <= f < fm.0[j].1.len() && #[trigger] fm.0[j].1[f] == r.0[j].1[e] by {
            if j != k {
                lemma_drop_path_entries(fm.0[j].1, p);
            }
        }
        assert forall|g: int|
            #![trigger r.1[g]]
            0 <= g < r.1.len() && r.1[g].0 != p implies exists|f: int|
            0 <= f < fm.1.len() && #[trigger] fm.1[f] == r.1[g] by {}
        assert forall|k1: int, e1: int, k2: int, e2: int|
            0 <= k1 < r.0.len() && 0 <= e1 < r.0[k1].1.len() && 0 <= k2 < r.0.len() && 0 <= e2
                < r.0[k2].1.len() && #[trigger] r.0[k1].1[e1].0 == #[trigger] r.0[k2].1[e2].0
                implies k1 == k2 by {
            if r.0[k1].1[e1].0 == p {
                assert(in_list_at(r, p, k1, e1) && in_list_at(r, p, k2, e2));
            } else {
                let f1 = choose|f: int| 0 <= f < fm.0[k1].1.len() && #[trigger] fm.0[k1].1[f] == r.0[k1].1[e1];
                let f2 = choose|f: int| 0 <= f < fm.0[k2].1.len() && #[trigger] fm.0[k2].1[f] == r.0[k2].1[e2];
                assert(fm.0[k1].1[f1].0 == fm.0[k2].1[f2].0);
            }
        }
        assert forall|k1: int, e1: int, g: int|
            0 <= k1 < r.0.len() && 0 <= e1 < r.0[k1].1.len() && 0 <= g < r.1.len() implies #[trigger] r.0[k1].1[e1].0
            != #[trigger] r.1[g].0 by {
            if r.0[k1].1[e1].0 == p {
                assert(in_list_at(r, p, k1, e1));
                if r.1[g].0 == p {
                    assert(in_global_at(r, p, g));
                }
            } else if r.1[g].0 == r.0[k1].1[e1].0 {
                let f1 = choose|f: int| 0 <= f < fm.0[k1].1.len() && #[trigger] fm.0[k1].1[f] == r.0[k1].1[e1];
                let f2 = choose|f: int| 0 <= f < fm.1.len() && #[trigger] fm.1[f] == r.1[g];
                assert(fm.0[k1].1[f1].0 == fm.1[f2].0);
            }
        }
    }
}

/// Forgetting a path keeps every other path where it was.
proof fn lemma_record_delete_once(fm: FileMapModel, m: Seq<(Seq<char>, Seq<char>)>, p: Seq<char>)
    requires
        listed_once(fm),
    ensures
        listed_once(record_delete(fm, m, p)),
{
    let r = record_delete(fm, m, p);
    let k = owner_list(m, fm.0, p);
    if k >= 0 {
        let c = choose|c: int| is_first_with_key(fm.0, owner(m, p)->0, c);
        assert(0 <= k < fm.0.len());
    }
    lemma_drop_path_entries(fm.1, p);
    assert forall|j: int, e: int|
        #![trigger r.0[j].1[e]]
        0 <= j < r.0.len() && 0 <= e < r.0[j].1.len() implies exists|
        f: int,
    | 0 <= f < fm.0[j].1.len() && #[trigger] fm.0[j].1[f] == r.0[j].1[e] by {
        if j == k {
            lemma_drop_path_entries(fm.0[j].1, p);
        } else {
            assert(r.0[j] == fm.0[j]);
            assert(fm.0[j].1[e] == r.0[j].1[e]);
        }
    }
    assert forall|g: int|
        #![trigger r.1[g]]
        0 <= g < r.1.len() implies exists|f: int|
        0 <= f < fm.1.len() && #[trigger] fm.1[f] == r.1[g] by {}
    assert forall|k1: int, e1: int, k2: int, e2: int|
        0 <= k1 < r.0.len() && 0 <= e1 < r.0[k1].1.len() && 0 <= k2 < r.0.len() && 0 <= e2 < r.0[k2].1.len()
            && #[trigger] r.0[k1].1[e1].0 == #[trigger] r.0[k2].1[e2].0 implies k1 == k2 by {
        let f1 = choose|f: int| 0 <= f < fm.0[k1].1.len() && #[trigger] fm.0[k1].1[f] == r.0[k1].1[e1];
        let f2 = choose|f: int| 0 <= f < fm.0[k2].1.len() && #[trigger] fm.0[k2].1[f] == r.0[k2].1[e2];
        assert(fm.0[k1].1[f1].0 == fm.0[k2].1[f2].0);
    }
    assert forall|k1: int, e1: int, g: int|
        0 <= k1 < r.0.len() && 0 <= e1 < r.0[k1].1.len() && 0 <= g < r.1.len() implies #[trigger] r.0[k1].1[e1].0
        != #[trigger] r.1[g].0 by {
        let f1 = choose|f: int| 0 <= f < fm.0[k1].1.len() && #[trigger] fm.0[k1].1[f] == r.0[k1].1[e1];
        let f2 = choose|f: int| 0 <= f < fm.1.len() && #[trigger] fm.1[f] == r.1[g];
        assert(fm.0[k1].1[f1].0 != fm.1[f2].0);
    }
}

/// No path occurs twice in list `l`.
pub open spec fn paths_distinct(l: Seq<(Seq<char>, Seq<char>)>) -> bool {
    forall|x: int, y: int| 0 <= x < y < l.len() ==> #[trigger] l[x].0 != #[trigger] l[y].0
}

/// No single list of the file map holds a path twice.
pub open spec fn lists_distinct(fm: FileMapModel) -> bool {
    &&& forall|k: int| 0 <= k < fm.0.len() ==> paths_distinct(#[trigger] fm.0[k].1)
    &&& paths_distinct(fm.1)
}

proof fn lemma_drop_path_distinct(l: Seq<(Seq<char>, Seq<char>)>, p: Seq<char>)
    requires
        paths_distinct(l),
    ensures
        paths_distinct(drop_path(l, p)),
    decreases l.len(),
{
    if l.len() > 0 {
        let init = l.drop_last();
        assert forall|x: int, y: int| 0 <= x < y < init.len() implies #[trigger] init[x].0
            != #[trigger] init[y].0 by {
            assert(init[x] == l[x] && init[y] == l[y]);
        }
        lemma_drop_path_distinct(init, p);
        lemma_drop_path_entries(init, p);
        let d0 = drop_path(init, p);
        let d = drop_path(l, p);
        if l.last().0 != p {
            assert forall|x: int, y: int| 0 <= x < y < d.len() implies #[trigger] d[x].0
                != #[trigger] d[y].0 by {
                if y == d0.len() {
                    assert(d[x] == d0[x]);
                    let z = choose|z: int| 0 <= z < init.len() && init[z] == d0[x];
                    assert(l[z] == d0[x]);
                    assert(l[z].0 != l[l.len() - 1].0);
                } else {
                    assert(d[x] == d0[x] && d[y] == d0[y]);
                }
            }
        }
    }
}

proof fn lemma_set_in_list_distinct(l: Seq<(Seq<char>, Seq<char>)>, p: Seq<char>, h: Seq<char>)
    requires
        paths_distinct(l),
    ensures
        paths_distinct(set_in_list(l, p, h)),
{
    let r = set_in_list(l, p, h);
    lemma_set_in_list_entries(l, p, h);
    let i = first_with_key(l, p);
    if i >= 0 {
        let c = choose|c: int| is_first_with_key(l, p, c);
        let tail = l.skip(i + 1);
        assert forall|x: int, y: int| 0 <= x < y < tail.len() implies #[trigger] tail[x].0
            != #[trigger] tail[y].0 by {
            assert(tail[x] == l[x + i + 1] && tail[y] == l[y + i + 1]);
        }
        lemma_drop_path_distinct(tail, p);
        lemma_drop_path_entries(tail, p);
        let d = drop_path(tail, p);
        assert forall|x: int, y: int| 0 <= x < y < r.len() implies #[trigger] r[x].0
            != #[trigger] r[y].0 by {
            if r[x].0 == p || r[y].0 == p {
                if r[x].0 == r[y].0 {
                    assert(r[x].0 == p && r[y].0 == p);
                }
            } else if y < i {
                assert(r[x] == l[x] && r[y] == l[y]);
            } else if x < i {
                assert(y > i);
                assert(r[x] == l[x]);
                assert(r[y] == d[y - i - 1]);
                let z = choose|z: int| 0 <= z < tail.len() && tail[z] == d[y - i - 1];
                assert(l[z + i + 1] == r[y]);
            } else {
                assert(x > i);
                assert(r[x] == d[x - i - 1] && r[y] == d[y - i - 1]);
            }
        }
    } else {
        assert forall|x: int, y: int| 0 <= x < y < r.len() implies #[trigger] r[x].0
            != #[trigger] r[y].0 by {
            if y == l.len() {
                assert(r[x] == l[x]);
                if l[x].0 == p {
                    lemma_first_exists(l, p, x);
                }
            } else {
                assert(r[x] == l[x] && r[y] == l[y]);
            }
        }
    }
}

/// Recording an update or forgetting a path keeps every list free of twice-listed paths.
proof fn lemma_record_steps_distinct(fm: FileMapModel, m: Seq<(Seq<char>, Seq<char>)>, p: Seq<char>, h: Seq<char>)
    requires
        lists_distinct(fm),
    ensures
        lists_distinct(record_update(fm, m, p, h)),
        lists_distinct(record_delete(fm, m, p)),
{
    let k = owner_list(m, fm.0, p);
    if k >= 0 {
        let c = choose|c: int| is_first_with_key(fm.0, owner(m, p)->0, c);
        assert(0 <= k < fm.0.len());
    }
    lemma_drop_path_distinct(fm.1, p);
    lemma_set_in_list_distinct(fm.1, p, h);
    let u = record_update(fm, m, p, h);
    assert forall|j: int| 0 <= j < u.0.len() implies paths_distinct(#[trigger] u.0[j].1) by {
        if j == k {
            lemma_set_in_list_distinct(fm.0[j].1, p, h);
        } else {
            lemma_drop_path_distinct(fm.0[j].1, p);
        }
    }
    let d = record_delete(fm, m, p);
    assert forall|j: int| 0 <= j < d.0.len() implies paths_distinct(#[trigger] d.0[j].1) by {
        if j == k {
            lemma_drop_path_distinct(fm.0[j].1, p);
        } else {
            assert(d.0[j] == fm.0[j]);
        }
    }
}

proof fn lemma_reconcile_distinct(
    fm: FileMapModel,
    m: Seq<(Seq<char>, Seq<char>)>,
    updated: Seq<(Seq<char>, Seq<char>)>,
    deleted: Seq<Seq<char>>,
)
    requires
        lists_distinct(fm),
    ensures
        lists_distinct(record_updates(fm, m, updated)),
        lists_distinct(record_deletes(record_updates(fm, m, updated), m, deleted)),
    decreases updated.len() + deleted.len(),
{
    if deleted.len() > 0 {
        lemma_reconcile_distinct(fm, m, updated, deleted.drop_last());
        lemma_record_steps_distinct(
            record_deletes(record_updates(fm, m, updated), m, deleted.drop_last()),
            m,
            deleted.last(),
            Seq::empty(),
        );
    } else if updated.len() > 0 {
        lemma_reconcile_distinct(fm, m, updated.drop_last(), deleted);
        lemma_record_steps_distinct(
            record_updates(fm, m, updated.drop_last()),
            m,
            updated.last().0,
            updated.last().1,
        );
    }
}

proof fn lemma_record_updates_once(
    fm: FileMapModel,
    m: Seq<(Seq<char>, Seq<char>)>,
    updated: Seq<(Seq<char>, Seq<char>)>,
)
    requires
        listed_once(fm),
    ensures
        listed_once(record_updates(fm, m, updated)),
    decreases updated.len(),
{
    if updated.len() > 0 {
        lemma_record_updates_once(fm, m, updated.drop_last());
        lemma_record_update_once(
            record_updates(fm, m, updated.drop_last()),
            m,
            updated.last().0,
            updated.last().1,
        );
    }
}

proof fn lemma_record_deletes_once(
    fm: FileMapModel,
    m: Seq<(Seq<char>, Seq<char>)>,
    deleted: Seq<Seq<char>>,
)
    requires
        listed_once(fm),
    ensures
        listed_once(record_deletes(fm, m, deleted)),
    decreases deleted.len(),
{
    if deleted.len() > 0 {
        lemma_record_deletes_once(fm, m, deleted.drop_last());
        lemma_record_delete_once(record_deletes(fm, m, deleted.drop_last()), m, deleted.last());
    }
}

/// Where no path is listed twice, none is after reconciliation either: every
/// path sits in one project's list or in the unowned list, and no list holds
/// it twice.
pub proof fn lemma_reconcile_partition(
    fm: FileMapModel,
    m: Seq<(Seq<char>, Seq<char>)>,
    updated: Seq<(Seq<char>, Seq<char>)>,
    deleted: Seq<Seq<char>>,
)
    requires
        listed_once(fm),
        lists_distinct(fm),
    ensures
        listed_once(reconciled(fm, m, updated, deleted)),
        lists_distinct(reconciled(fm, m, updated, deleted)),
{
    lemma_reconcile_distinct(fm, m, updated, deleted);
    lemma_record_updates_once(fm, m, updated);
    lemma_record_deletes_once(record_updates(fm, m, updated), m, deleted);
}

/// Recording hash `h1` and then hash `h2` for path `p` leaves exactly one entry
/// of `p` in the file map, with hash `h2`, whatever the file map held before.
pub proof fn lemma_update_overwrites_once(
    fm: FileMapModel,
    m: Seq<(Seq<char>, Seq<char>)>,
    p: Seq<char>,
    h1: Seq<char>,
    h2: Seq<char>,
)
    ensures
        listed_exactly_once(
            reconciled(reconciled(fm, m, seq![(p, h1)], seq![]), m, seq![(p, h2)], seq![]),
            p,
            h2,
        ),
{
    reveal_with_fuel(record_updates, 2);
    let once = reconciled(fm, m, seq![(p, h1)], seq![]);
    assert(seq![(p, h1)].drop_last() =~= Seq::<(Seq<char>, Seq<char>)>::empty());
    assert(seq![(p, h2)].drop_last() =~= Seq::<(Seq<char>, Seq<char>)>::empty());
    assert(once == record_update(fm, m, p, h1));
    assert(reconciled(once, m, seq![(p, h2)], seq![]) == record_update(once, m, p, h2));
    lemma_record_update_once(once, m, p, h2);
}

/// The same lists with every list emptied.
pub open spec fn emptied(lists: Seq<(Seq<char>, Seq<(Seq<char>, Seq<char>)>)>) -> Seq<
    (Seq<char>, Seq<(Seq<char>, Seq<char>)>),
> {
    lists.map_values(|l: (Seq<char>, Seq<(Seq<char>, Seq<char>)>)| (l.0, Seq::empty()))
}

/// Some declaration names project `name`.
pub open spec fn is_declared(m: Seq<(Seq<char>, Seq<char>)>, name: Seq<char>) -> bool {
    exists|j: int| 0 <= j < m.len() && #[trigger] m[j].1 == name
}

/// Every project that a declaration names has one list, and every list is of
/// a declared project.
pub open spec fn lists_match_roots(
    lists: Seq<(Seq<char>, Seq<(Seq<char>, Seq<char>)>)>,
    m: Seq<(Seq<char>, Seq<char>)>,
) -> bool {
    &&& forall|j: int| 0 <= j < m.len() ==> first_with_key(lists, #[trigger] m[j].1) >= 0
    &&& forall|k: int| 0 <= k < lists.len() ==> is_declared(m, #[trigger] lists[k].0)
    &&& forall|k1: int, k2: int|
        0 <= k1 < lists.len() && 0 <= k2 < lists.len() && #[trigger] lists[k1].0 == #[trigger] lists[k2].0
            ==> k1 == k2
}

proof fn lemma_record_updates_keeps_names(
    fm: FileMapModel,
    m: Seq<(Seq<char>, Seq<char>)>,
    updated: Seq<(Seq<char>, Seq<char>)>,
)
    ensures
        record_updates(fm, m, updated).0.len() == fm.0.len(),
        forall|k: int| 0 <= k < fm.0.len() ==> #[trigger] record_updates(fm, m, updated).0[k].0 == fm.0[k].0,
    decreases updated.len(),
{
    if updated.len() > 0 {
        lemma_record_updates_keeps_names(fm, m, updated.drop_last());
    }
}

/// Every file of the workspace in the list of the project that owns it, or
/// among the unowned files; one list per declared project, in the order the
/// projects are first declared.
pub fn workspace_file_map(roots: &Vec<ProjectRoot>, files: &Vec<FileData>) -> (r: (
    Vec<ProjectFileList>,
    Vec<FileData>,
))
    ensures
        lists_match_roots(lists_of(r.0@), roots_of(roots@)),
        (lists_of(r.0@), views_of(r.1@)) == record_updates(
            (emptied(lists_of(r.0@)), Seq::empty()),
            roots_of(roots@),
            views_of(files@),
        ),
        listed_once((lists_of(r.0@), views_of(r.1@))),
        lists_distinct((lists_of(r.0@), views_of(r.1@))),
{
    let ghost m = roots_of(roots@);
    let mut lists: Vec<ProjectFileList> = Vec::new();
    let mut i: usize = 0;
    while i < roots.len()
        invariant
            m == roots_of(roots@),
            i <= roots@.len(),
            forall|j: int| 0 <= j < i ==> first_with_key(lists_of(lists@), #[trigger] m[j].1) >= 0,
            forall|k: int| 0 <= k < lists@.len() ==> is_declared(m, #[trigger] lists_of(lists@)[k].0),
            forall|k1: int, k2: int|
                0 <= k1 < lists@.len() && 0 <= k2 < lists@.len() && #[trigger] lists_of(lists@)[k1].0
                    == #[trigger] lists_of(lists@)[k2].0 ==> k1 == k2,
            forall|k: int| 0 <= k < lists@.len() ==> (#[trigger] lists_of(lists@)[k]).1.len() == 0,
        decreases roots@.len() - i,
    {
        let ghost before = lists_of(lists@);
        assert(m[i as int] == roots@[i as int]@);
        match first_project_index(&lists, &roots[i].project) {
            Some(_) => {},
            None => {
                let name = roots[i].project.clone();
                let fresh = ProjectFileList { project: name, files: Vec::new() };
                assert(views_of(fresh.files@) =~= Seq::<(Seq<char>, Seq<char>)>::empty());
                let ghost l0 = lists@;
                assert(before.len() == l0.len());
                lists.push(fresh);
                assert(lists@ == l0.push(fresh));
                let ghost after = lists_of(lists@);
                assert(after =~= before.push((m[i as int].1, Seq::empty())));
                assert(is_first_with_key(after, m[i as int].1, before.len() as int));
                assert forall|j: int| 0 <= j < i implies first_with_key(after, #[trigger] m[j].1) >= 0 by {
                    let c = choose|c: int| is_first_with_key(before, m[j].1, c);
                    assert(is_first_with_key(after, m[j].1, c));
                }
                assert forall|k: int| 0 <= k < after.len() implies is_declared(m, #[trigger] after[k].0) by {
                    if k < before.len() {
                        assert(after[k] == before[k]);
                    } else {
                        assert(m[i as int].1 == after[k].0);
                    }
                }
                assert forall|k1: int, k2: int|
                    0 <= k1 < after.len() && 0 <= k2 < after.len() && #[trigger] after[k1].0
                        == #[trigger] after[k2].0 implies k1 == k2 by {
                    if k1 < before.len() && k2 < before.len() {
                        assert(after[k1] == before[k1] && after[k2] == before[k2]);
                    } else if k1 < before.len() {
                        assert(before[k1].0 == m[i as int].1);
                    } else if k2 < before.len() {
                        assert(before[k2].0 == m[i as int].1);
                    }
                }
                assert forall|k: int| 0 <= k < after.len() implies (#[trigger] after[k]).1.len() == 0 by {
                    if k < before.len() {
                        assert(after[k] == before[k]);
                    }
                }
            },
        }
        i = i + 1;
    }
    let ghost init: FileMapModel = (lists_of(lists@), Seq::empty());
    assert forall|k: int| 0 <= k < init.0.len() implies #[trigger] emptied(init.0)[k] == init.0[k] by {
        assert(init.0[k].1 =~= Seq::<(Seq<char>, Seq<char>)>::empty());
    }
    assert(emptied(init.0) =~= init.0);
    let mut global: Vec<FileData> = Vec::new();
    assert(views_of(global@) =~= Seq::<(Seq<char>, Seq<char>)>::empty());
    let updated = pairs_from_files(files);
    update_project_files(roots, &mut lists, &mut global, &updated, &Vec::new());
    proof {
        let u = views_of(files@);
        let d = paths_of(Seq::<String>::empty());
        assert(d =~= Seq::<Seq<char>>::empty());
        assert(reconciled(init, m, u, d) == record_updates(init, m, u));
        lemma_record_updates_keeps_names(init, m, u);
        let fin = lists_of(lists@);
        assert(emptied(fin) =~= init.0);
        assert(listed_once(init));
        assert forall|k: int| 0 <= k < init.0.len() implies paths_distinct(#[trigger] init.0[k].1) by {}
        assert(lists_distinct(init));
        lemma_reconcile_partition(init, m, u, d);
        assert forall|j: int| 0 <= j < m.len() implies first_with_key(fin, #[trigger] m[j].1) >= 0 by {
            let c = choose|c: int| is_first_with_key(init.0, m[j].1, c);
            assert(init.0[c].0 == fin[c].0);
            assert forall|x: int| 0 <= x < c implies #[trigger] fin[x].0 != m[j].1 by {
                assert(init.0[x].0 == fin[x].0);
            }
            assert(is_first_with_key(fin, m[j].1, c));
        }
        assert forall|k: int| 0 <= k < fin.len() implies is_declared(m, #[trigger] fin[k].0) by {
            assert(init.0[k].0 == fin[k].0);
        }
        assert forall|k1: int, k2: int|
            0 <= k1 < fin.len() && 0 <= k2 < fin.len() && #[trigger] fin[k1].0 == #[trigger] fin[k2].0
                implies k1 == k2 by {
            assert(init.0[k1].0 == fin[k1].0 && init.0[k2].0 == fin[k2].0);
        }
    }
    (lists, global)
}

/// The (path, hash) pairs of a list of entries.
fn pairs_from_files(files: &Vec<FileData>) -> (r: Vec<(String, String)>)
    ensures
        pairs_of(r@) == views_of(files@),
{
    let mut r: Vec<(String, String)> = Vec::new();
    let mut i: usize = 0;
    while i < files.len()
        invariant
            i <= files@.len(),
            pairs_of(r@) == views_of(files@).take(i as int),
        decreases files@.len() - i,
    {
        let ghost r0 = r@;
        assert(pairs_of(r0).len() == r0.len());
        r.push((files[i].file.clone(), files[i].hash.clone()));
        assert(views_of(files@)[i as int] == files@[i as int]@);
        assert forall|k: int| 0 <= k < i + 1 implies #[trigger] pairs_of(r@)[k] == views_of(files@).take(i + 1)[k] by {
            if k < i {
                assert(r@[k] == r0[k]);
                assert(pairs_of(r0)[k] == views_of(files@).take(i as int)[k]);
            }
        }
        assert(pairs_of(r@) =~= views_of(files@).take(i + 1));
        i = i + 1;
    }
    assert(views_of(files@).take(i as int) =~= views_of(files@));
    r
}

} // verus!
