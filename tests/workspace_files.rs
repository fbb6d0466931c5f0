use workspace_files::aggregate::{content_hash_of, select_matches};
use workspace_files::file_table::{FileData, FileTable};
use workspace_files::path_order::path_less;
use workspace_files::reconcile::{
    find_project_for_path, is_root_of_path, update_project_files, workspace_file_map, ProjectFileList,
    ProjectRoot,
};
use workspace_files::selective::{plan_selective_hash, ArchivedFile, FileStat};

fn h(content: &str) -> String {
    xxhash_rust::xxh3::xxh3_64(content.as_bytes()).to_string()
}

fn s(v: &str) -> String {
    v.to_string()
}

fn pair(p: &str, hash: &str) -> (String, String) {
    (s(p), s(hash))
}

fn fd(p: &str, hash: &str) -> FileData {
    FileData { file: s(p), hash: s(hash) }
}

fn paths(t: &FileTable) -> Vec<String> {
    t.files().into_iter().map(|f| f.file).collect()
}

fn assert_strictly_sorted(t: &FileTable) {
    let files = t.files();
    for w in files.windows(2) {
        assert!(w[0].file < w[1].file, "{} !< {}", w[0].file, w[1].file);
    }
}

#[test]
fn construction_lists_files_sorted_by_path() {
    let t = FileTable::from_hashes(vec![(s("b.txt"), h("y")), (s("a.txt"), h("x"))]);
    assert_eq!(t.files(), vec![fd("a.txt", &h("x")), fd("b.txt", &h("y"))]);
}

#[test]
fn incremental_update_and_delete_scenario() {
    let mut t = FileTable::from_hashes(vec![(s("a.txt"), h("x")), (s("b.txt"), h("y"))]);
    t.apply_update(&vec![], &vec![(s("b.txt"), h("z"))]);
    assert_eq!(t.files(), vec![fd("a.txt", &h("x")), fd("b.txt", &h("z"))]);
    t.apply_update(&vec![s("a.txt")], &vec![]);
    assert_eq!(t.files(), vec![fd("b.txt", &h("z"))]);
}

#[test]
fn empty_workspace_has_no_files() {
    let t = FileTable::from_hashes(vec![]);
    assert_eq!(t.len(), 0);
    assert!(t.files().is_empty());
    let e = FileTable::new();
    assert!(e.files().is_empty());
}

#[test]
fn duplicate_paths_in_hashes_leave_one_entry() {
    let t = FileTable::from_hashes(vec![pair("a", "1"), pair("a", "1"), pair("b", "2")]);
    assert_eq!(t.files(), vec![fd("a", "1"), fd("b", "2")]);
}

#[test]
fn deleting_absent_path_changes_nothing() {
    let mut t = FileTable::from_hashes(vec![pair("a", "1"), pair("c", "3")]);
    let before = t.files();
    t.apply_update(&vec![s("b")], &vec![]);
    assert_eq!(t.files(), before);
}

#[test]
fn deleting_twice_is_deleting_once() {
    let mut once = FileTable::from_hashes(vec![pair("a", "1"), pair("b", "2")]);
    once.apply_update(&vec![s("a")], &vec![]);
    let mut twice = FileTable::from_hashes(vec![pair("a", "1"), pair("b", "2")]);
    twice.apply_update(&vec![s("a"), s("a")], &vec![]);
    twice.apply_update(&vec![s("a")], &vec![]);
    assert_eq!(once.files(), twice.files());
    assert_eq!(once.files(), vec![fd("b", "2")]);
}

#[test]
fn update_overwrites_never_duplicates() {
    let mut t = FileTable::from_hashes(vec![pair("q", "0")]);
    t.apply_update(&vec![], &vec![pair("p", "h1")]);
    t.apply_update(&vec![], &vec![pair("p", "h2")]);
    assert_eq!(t.files(), vec![fd("p", "h2"), fd("q", "0")]);
}

#[test]
fn later_pair_in_one_batch_wins() {
    let mut t = FileTable::new();
    t.apply_update(&vec![], &vec![pair("p", "h1"), pair("p", "h2")]);
    assert_eq!(t.files(), vec![fd("p", "h2")]);
}

#[test]
fn table_stays_sorted_over_many_updates() {
    let mut t = FileTable::new();
    let names = ["m", "a/b", "a-b", "z", "a", "ab", "a/b/c", "é", "B", "m"];
    for (i, n) in names.iter().enumerate() {
        t.apply_update(&vec![], &vec![(s(n), i.to_string())]);
        assert_strictly_sorted(&t);
    }
    t.apply_update(&vec![s("z"), s("a")], &vec![pair("0", "x")]);
    assert_strictly_sorted(&t);
    assert_eq!(paths(&t), vec!["0", "B", "a-b", "a/b", "a/b/c", "ab", "m", "é"]);
    assert!(t.contains(&s("m")));
    assert!(!t.contains(&s("z")));
}

#[test]
fn path_order_is_byte_order() {
    assert!(path_less(&s("a"), &s("b")));
    assert!(path_less(&s("a"), &s("ab")));
    assert!(!path_less(&s("ab"), &s("a")));
    assert!(!path_less(&s("a"), &s("a")));
    assert!(path_less(&s("a-b"), &s("a/b")));
    assert!(path_less(&s("Z"), &s("a")));
    assert!(path_less(&s("z"), &s("é")));
    assert!(!path_less(&s(""), &s("")));
    assert!(path_less(&s(""), &s("x")));
}

#[test]
fn root_of_path_needs_a_directory_boundary() {
    assert!(is_root_of_path(&s("libs/a"), &s("libs/a/x.ts")));
    assert!(is_root_of_path(&s("libs/a"), &s("libs/a")));
    assert!(!is_root_of_path(&s("libs/a"), &s("libs/ab/x.ts")));
    assert!(!is_root_of_path(&s("libs/a/x.ts"), &s("libs/a")));
}

fn roots() -> Vec<ProjectRoot> {
    vec![
        ProjectRoot { root: s("libs"), project: s("all-libs") },
        ProjectRoot { root: s("libs/a"), project: s("a") },
        ProjectRoot { root: s("apps/web"), project: s("web") },
        ProjectRoot { root: s("libs/a"), project: s("a-again") },
    ]
}

#[test]
fn longest_root_owns_the_path() {
    let r = roots();
    assert_eq!(find_project_for_path(&r, &s("libs/a/src/x.ts")), Some(1));
    assert_eq!(find_project_for_path(&r, &s("libs/b/x.ts")), Some(0));
    assert_eq!(find_project_for_path(&r, &s("apps/web/main.ts")), Some(2));
    assert_eq!(find_project_for_path(&r, &s("README.md")), None);
    assert_eq!(find_project_for_path(&vec![], &s("x")), None);
}

fn list(project: &str, files: Vec<FileData>) -> ProjectFileList {
    ProjectFileList { project: s(project), files }
}

#[test]
fn reconcile_updates_owned_and_global_files() {
    let r = roots();
    let mut projects = vec![
        list("a", vec![fd("libs/a/one.ts", "1"), fd("libs/a/two.ts", "2")]),
        list("web", vec![]),
    ];
    let mut global = vec![fd("README.md", "r")];
    update_project_files(
        &r,
        &mut projects,
        &mut global,
        &vec![
            pair("libs/a/one.ts", "1b"),
            pair("libs/a/three.ts", "3"),
            pair("apps/web/main.ts", "w"),
            pair("README.md", "r2"),
            pair("libs/b/x.ts", "b"),
        ],
        &vec![],
    );
    assert_eq!(
        projects[0].files,
        vec![fd("libs/a/one.ts", "1b"), fd("libs/a/two.ts", "2"), fd("libs/a/three.ts", "3")]
    );
    assert_eq!(projects[1].files, vec![fd("apps/web/main.ts", "w")]);
    // "all-libs" owns libs/b but has no list, so the file is global.
    assert_eq!(global, vec![fd("README.md", "r2"), fd("libs/b/x.ts", "b")]);
}

#[test]
fn reconcile_deletes_from_owner_and_global() {
    let r = roots();
    let mut projects = vec![list("a", vec![fd("libs/a/one.ts", "1"), fd("libs/a/two.ts", "2")])];
    let mut global = vec![fd("README.md", "r"), fd("libs/a/two.ts", "stray")];
    update_project_files(
        &r,
        &mut projects,
        &mut global,
        &vec![],
        &vec![s("libs/a/two.ts"), s("README.md"), s("missing.txt")],
    );
    assert_eq!(projects[0].files, vec![fd("libs/a/one.ts", "1")]);
    assert!(global.is_empty());
}

#[test]
fn reconcile_keeps_each_path_in_one_place() {
    let r = roots();
    let mut projects = vec![list("a", vec![]), list("web", vec![])];
    let mut global: Vec<FileData> = vec![];
    let updated = vec![
        pair("libs/a/x", "1"),
        pair("apps/web/y", "2"),
        pair("z", "3"),
        pair("libs/a/x", "4"),
        pair("z", "5"),
    ];
    update_project_files(&r, &mut projects, &mut global, &updated, &vec![s("apps/web/y")]);
    let mut all: Vec<String> = global.iter().map(|f| f.file.clone()).collect();
    for l in &projects {
        all.extend(l.files.iter().map(|f| f.file.clone()));
    }
    let n = all.len();
    all.sort();
    all.dedup();
    assert_eq!(all.len(), n);
    assert_eq!(projects[0].files, vec![fd("libs/a/x", "4")]);
    assert!(projects[1].files.is_empty());
    assert_eq!(global, vec![fd("z", "5")]);
}

#[test]
fn aggregate_hash_is_hash_of_hashes_in_path_order() {
    let t = FileTable::from_hashes(vec![pair("b", "22"), pair("a", "11"), pair("c", "33")]);
    let r = t.hash_files_matching(&vec![s("c"), s("a")]);
    assert_eq!(r, h("1133"));
    assert_ne!(r, s("1133"));
}

#[test]
fn aggregate_hash_ignores_match_order() {
    let t = FileTable::from_hashes(vec![pair("b", "22"), pair("a", "11"), pair("c", "33")]);
    let x = t.hash_files_matching(&vec![s("a"), s("b")]);
    let y = t.hash_files_matching(&vec![s("b"), s("a"), s("b"), s("not-there")]);
    assert_eq!(x, y);
    assert_eq!(t.hash_files_matching(&vec![]), h(""));
}

fn stat(p: &str, size: u64, modified: u64) -> FileStat {
    FileStat { path: s(p), size, modified }
}

fn arch(p: &str, hash: &str, size: u64, modified: u64) -> ArchivedFile {
    ArchivedFile { path: s(p), hash: s(hash), size, modified }
}

#[test]
fn selective_plan_reuses_unchanged_files() {
    let current = vec![stat("a", 1, 10), stat("b", 2, 20), stat("c", 3, 30), stat("new", 4, 40)];
    let archive = vec![
        arch("a", "ha", 1, 10),
        arch("b", "hb", 2, 99),
        arch("c", "hc", 5, 30),
        arch("gone", "hg", 1, 1),
    ];
    let (kept, again) = plan_selective_hash(&current, &archive);
    assert_eq!(kept, vec![pair("a", "ha")]);
    assert_eq!(again, vec![s("b"), s("c"), s("new")]);
}

#[test]
fn selective_plan_ignores_unsorted_archive() {
    let current = vec![stat("a", 1, 10), stat("b", 2, 20)];
    let archive = vec![arch("b", "hb", 2, 20), arch("a", "ha", 1, 10)];
    let (kept, again) = plan_selective_hash(&current, &archive);
    assert!(kept.is_empty());
    assert_eq!(again, vec![s("a"), s("b")]);
}

#[test]
fn selective_and_full_hashing_agree_on_up_to_date_archive() {
    let contents = [("a", "x"), ("b", "y"), ("c", "z")];
    let current: Vec<FileStat> = contents.iter().map(|(p, c)| stat(p, c.len() as u64, 7)).collect();
    let full = FileTable::from_hashes(contents.iter().map(|(p, c)| (s(p), h(c))).collect());
    let archive: Vec<ArchivedFile> =
        full.files().iter().map(|f| arch(&f.file, &f.hash, 1, 7)).collect();
    let (mut kept, again) = plan_selective_hash(&current, &archive);
    assert_eq!(again.len(), 0);
    for p in again {
        let c = contents.iter().find(|(q, _)| *q == p).unwrap().1;
        kept.push((p, h(c)));
    }
    assert_eq!(FileTable::from_hashes(kept).files(), full.files());
    let again_full = FileTable::from_hashes(contents.iter().map(|(p, c)| (s(p), h(c))).collect());
    assert_eq!(again_full.files(), full.files());
}

#[test]
fn workspace_file_map_splits_files_by_owner() {
    let r = roots();
    let files = vec![
        fd("README.md", "r"),
        fd("apps/web/main.ts", "w"),
        fd("libs/a/x.ts", "x"),
        fd("libs/b/y.ts", "y"),
    ];
    let (lists, global) = workspace_file_map(&r, &files);
    let names: Vec<String> = lists.iter().map(|l| l.project.clone()).collect();
    assert_eq!(names, vec!["all-libs", "a", "web", "a-again"]);
    assert_eq!(lists[0].files, vec![fd("libs/b/y.ts", "y")]);
    assert_eq!(lists[1].files, vec![fd("libs/a/x.ts", "x")]);
    assert_eq!(lists[2].files, vec![fd("apps/web/main.ts", "w")]);
    assert!(lists[3].files.is_empty());
    assert_eq!(global, vec![fd("README.md", "r")]);
}

#[test]
fn workspace_file_map_without_projects_is_all_global() {
    let files = vec![fd("a", "1"), fd("b", "2")];
    let (lists, global) = workspace_file_map(&vec![], &files);
    assert!(lists.is_empty());
    assert_eq!(global, files);
}

#[test]
fn owned_update_removes_stale_global_entry() {
    let r = roots();
    let mut projects = vec![list("a", vec![])];
    let mut global = vec![fd("libs/a/x.ts", "old"), fd("README.md", "r")];
    let updated = vec![pair("libs/a/x.ts", "new")];
    update_project_files(&r, &mut projects, &mut global, &updated, &vec![]);
    update_project_files(&r, &mut projects, &mut global, &vec![pair("libs/a/x.ts", "newer")], &vec![]);
    assert_eq!(projects[0].files, vec![fd("libs/a/x.ts", "newer")]);
    assert_eq!(global, vec![fd("README.md", "r")]);
}

#[test]
fn update_moves_path_out_of_other_project_lists() {
    let r = roots();
    let mut projects = vec![list("a", vec![]), list("web", vec![fd("libs/a/x.ts", "stale")])];
    let mut global = vec![];
    update_project_files(&r, &mut projects, &mut global, &vec![pair("libs/a/x.ts", "h")], &vec![]);
    assert_eq!(projects[0].files, vec![fd("libs/a/x.ts", "h")]);
    assert!(projects[1].files.is_empty());
    assert!(global.is_empty());
}

#[test]
fn unowned_update_collapses_duplicate_global_entries() {
    let r = roots();
    let mut projects = vec![list("a", vec![])];
    let mut global = vec![fd("README.md", "1"), fd("x", "x"), fd("README.md", "2")];
    update_project_files(&r, &mut projects, &mut global, &vec![pair("README.md", "3")], &vec![]);
    assert_eq!(global, vec![fd("README.md", "3"), fd("x", "x")]);
}

#[test]
fn deletion_removes_every_global_entry_of_the_path() {
    let r = roots();
    let mut projects = vec![list("a", vec![fd("libs/a/y", "y"), fd("libs/a/y", "y2")])];
    let mut global = vec![fd("README.md", "1"), fd("README.md", "2")];
    update_project_files(&r, &mut projects, &mut global, &vec![], &vec![s("README.md"), s("libs/a/y")]);
    assert!(global.is_empty());
    assert!(projects[0].files.is_empty());
}

#[test]
fn content_hash_of_is_xxh3_in_decimal() {
    assert_eq!(content_hash_of(b"x"), h("x"));
    assert_ne!(content_hash_of(b"x"), s("x"));
    assert_eq!(content_hash_of(b""), xxhash_rust::xxh3::xxh3_64(b"").to_string());
}

#[test]
fn select_matches_keeps_included_not_excluded_in_order() {
    let files = vec![fd("a", "1"), fd("b", "2"), fd("c", "3"), fd("d", "4")];
    let r = select_matches(&files, &vec![true, true, false, true], &vec![false, true, false, false]);
    assert_eq!(r, vec![s("a"), s("d")]);
    assert!(select_matches(&vec![], &vec![], &vec![]).is_empty());
}

#[test]
fn deletion_leaves_lists_of_other_projects_alone() {
    let mut projects = vec![list("q", vec![fd("x.ts", "1"), fd("y.ts", "2")])];
    let mut global = vec![fd("g", "g")];
    update_project_files(&vec![], &mut projects, &mut global, &vec![], &vec![s("x.ts")]);
    assert_eq!(projects[0].files, vec![fd("x.ts", "1"), fd("y.ts", "2")]);
    assert_eq!(global, vec![fd("g", "g")]);
}

#[test]
fn deleting_absent_paths_changes_no_list() {
    let r = roots();
    let mut projects = vec![list("a", vec![fd("libs/a/one.ts", "1")]), list("web", vec![])];
    let mut global = vec![fd("README.md", "r")];
    update_project_files(&r, &mut projects, &mut global, &vec![], &vec![s("libs/a/none.ts"), s("nope")]);
    assert_eq!(projects[0].files, vec![fd("libs/a/one.ts", "1")]);
    assert!(projects[1].files.is_empty());
    assert_eq!(global, vec![fd("README.md", "r")]);
}

#[test]
fn one_project_reconcile_example() {
    let r = vec![ProjectRoot { root: s("libs/a"), project: s("a") }];
    let mut projects = vec![list("a", vec![fd("libs/a/index.ts", "1")])];
    let mut global = vec![fd("package.json", "p")];
    update_project_files(
        &r,
        &mut projects,
        &mut global,
        &vec![pair("libs/a/index.ts", "2"), pair("libs/a/new.ts", "3"), pair("nx.json", "n")],
        &vec![s("package.json")],
    );
    assert_eq!(projects[0].files, vec![fd("libs/a/index.ts", "2"), fd("libs/a/new.ts", "3")]);
    assert_eq!(global, vec![fd("nx.json", "n")]);
}

#[test]
fn aggregate_hash_of_txt_files() {
    let t = FileTable::from_hashes(vec![(s("b.txt"), h("y")), (s("a.txt"), h("x")), (s("c.md"), h("m"))]);
    let files = t.files();
    let included: Vec<bool> = files.iter().map(|f| f.file.ends_with(".txt")).collect();
    let excluded = vec![false; files.len()];
    let matched = select_matches(&files, &included, &excluded);
    assert_eq!(matched, vec![s("a.txt"), s("b.txt")]);
    assert_eq!(t.hash_files_matching(&matched), h(&format!("{}{}", h("x"), h("y"))));
}
