//! One hash over the content hashes of a set of files.

use vstd::prelude::*;
use vstd::utf8::encode_utf8;
use crate::file_table::{paths_of, views_of, FileData, FileTable};

verus! {

/// The content hash of a byte string.
pub uninterp spec fn content_hash(b: Seq<u8>) -> Seq<char>;

/// Relies on `xxhash_rust::xxh3::xxh3_64`, written in decimal: the result
/// depends on the bytes alone.
#[verifier::external_body]
fn hash_bytes(content: &[u8]) -> (r: String)
    ensures
        r@ == content_hash(content@),
{
    xxhash_rust::xxh3::xxh3_64(content).to_string()
}

/// The content hash of `content`.
pub fn content_hash_of(content: &[u8]) -> (r: String)
    ensures
        r@ == content_hash(content@),
{
    hash_bytes(content)
}

/// The paths of the entries that the matcher includes and does not exclude,
/// in the order of the entries: `included[i]` and `excluded[i]` are its answers
/// for entry `i`.
pub fn select_matches(files: &Vec<FileData>, included: &Vec<bool>, excluded: &Vec<bool>) -> (r:
    Vec<String>)
    requires
        included@.len() == files@.len(),
        excluded@.len() == files@.len(),
    ensures
        paths_of(r@) == selected_paths(views_of(files@), included@, excluded@),
{
    let ghost s = views_of(files@);
    let mut r: Vec<String> = Vec::new();
    let mut i: usize = 0;
    while i < files.len()
        invariant
            s == views_of(files@),
            included@.len() == files@.len(),
            excluded@.len() == files@.len(),
            i <= files@.len(),
            paths_of(r@) == selected_paths(s.take(i as int), included@.take(i as int), excluded@.take(i as int)),
        decreases files@.len() - i,
    {
        assert(s.take(i + 1).drop_last() =~= s.take(i as int));
        assert(included@.take(i + 1).drop_last() =~= included@.take(i as int));
        assert(excluded@.take(i + 1).drop_last() =~= excluded@.take(i as int));
        assert(s[i as int] == files@[i as int]@);
        if included[i] && !excluded[i] {
            let ghost r0 = r@;
            r.push(files[i].file.clone());
            assert(paths_of(r@) =~= paths_of(r0).push(s[i as int].0));
        }
        i = i + 1;
    }
    assert(s.take(i as int) =~= s);
    assert(included@.take(i as int) =~= included@);
    assert(excluded@.take(i as int) =~= excluded@);
    r
}

/// The paths of `s` whose entry is included and not excluded.
pub open spec fn selected_paths(s: Seq<(Seq<char>, Seq<char>)>, inc: Seq<bool>, exc: Seq<bool>) -> Seq<Seq<char>>
    decreases s.len(),
{
    if s.len() == 0 || inc.len() == 0 || exc.len() == 0 {
        Seq::empty()
    } else if inc.last() && !exc.last() {
        selected_paths(s.drop_last(), inc.drop_last(), exc.drop_last()).push(s.last().0)
    } else {
        selected_paths(s.drop_last(), inc.drop_last(), exc.drop_last())
    }
}

/// The bytes of the hashes of the entries whose path is in `matched`, in the
/// order of the entries.
pub open spec fn matching_hash_bytes(
    s: Seq<(Seq<char>, Seq<char>)>,
    matched: Set<Seq<char>>,
) -> Seq<u8>
    decreases s.len(),
{
    if s.len() == 0 {
        Seq::empty()
    } else if matched.contains(s.last().0) {
        matching_hash_bytes(s.drop_last(), matched) + encode_utf8(s.last().1)
    } else {
        matching_hash_bytes(s.drop_last(), matched)
    }
}

impl FileTable {
    /// Hashes, in path order, the hashes of the entries whose path is one of
    /// `matched`.
    pub fn hash_files_matching(&self, matched: &Vec<String>) -> (r: String)
        requires
            self.wf(),
        ensures
            r@ == content_hash(matching_hash_bytes(self@, paths_of(matched@).to_set())),
    {
        let ghost wanted = paths_of(matched@).to_set();
        assert forall|p: Seq<char>| #[trigger] wanted.contains(p) == paths_of(matched@).contains(p) by {
            vstd::set::axiom_set_new(|a: Seq<char>| paths_of(matched@).contains(a), p);
        }
        let mut keys: Vec<(String, String)> = Vec::new();
        let mut i: usize = 0;
        while i < matched.len()
            invariant
                i <= matched@.len(),
                keys@.len() == i,
                forall|k: int| 0 <= k < i ==> #[trigger] keys@[k].0@ == matched@[k]@,
            decreases matched@.len() - i,
        {
            keys.push((matched[i].clone(), String::new()));
            i = i + 1;
        }
        let ghost key_pairs = crate::file_table::pairs_of(keys@);
        let lookup = FileTable::from_hashes(keys);
        let files = self.files();
        let mut bytes: Vec<u8> = Vec::new();
        let mut j: usize = 0;
        while j < files.len()
            invariant
                lookup.wf(),
                views_of(files@) == self@,
                j <= files@.len(),
                key_pairs.len() == matched@.len(),
                forall|k: int| 0 <= k < key_pairs.len() ==> #[trigger] key_pairs[k].0 == matched@[k]@,
                forall|p: Seq<char>| #[trigger]
                    lookup.mapping().contains_key(p) <==> crate::file_table::has_path(key_pairs, p),
                bytes@ == matching_hash_bytes(self@.take(j as int), wanted),
                forall|p: Seq<char>| #[trigger]
                    wanted.contains(p) == paths_of(matched@).contains(p),
            decreases files@.len() - j,
        {
            let ghost e = self@[j as int];
            assert(e == files@[j as int]@);
            assert(self@.take(j + 1).drop_last() =~= self@.take(j as int));
            let hit = lookup.contains(&files[j].file);
            proof {
                if crate::file_table::has_path(key_pairs, e.0) {
                    let k = choose|k: int| 0 <= k < key_pairs.len() && #[trigger] key_pairs[k].0 == e.0;
                    assert(key_pairs[k].0 == matched@[k]@);
                    assert(paths_of(matched@).len() == matched@.len());
                    assert(paths_of(matched@)[k] == matched@[k]@);
                    assert(0 <= k < paths_of(matched@).len());
                    assert(paths_of(matched@)[k] == e.0);
                    assert(paths_of(matched@).contains(e.0));
                }
                assert(wanted.contains(e.0) == paths_of(matched@).contains(e.0));
                if paths_of(matched@).contains(e.0) {
                    let k = choose|k: int| 0 <= k < matched@.len() && paths_of(matched@)[k] == e.0;
                    assert(key_pairs[k].0 == e.0);
                }
            }
            assert(self@.take(j + 1).last() == e);
            if hit {
                let h: &[u8] = files[j].hash.as_str().as_bytes();
                let ghost b0 = bytes@;
                let mut k: usize = 0;
                while k < h.len()
                    invariant
                        k <= h@.len(),
                        bytes@ == b0 + h@.take(k as int),
                    decreases h@.len() - k,
                {
                    bytes.push(h[k]);
                    assert(h@.take(k + 1) =~= h@.take(k as int).push(h@[k as int]));
                    assert(bytes@ =~= b0 + h@.take(k + 1));
                    k = k + 1;
                }
                assert(h@.take(k as int) =~= h@);
                assert(h@ == encode_utf8(e.1));
            }
            j = j + 1;
        }
        assert(self@.take(j as int) =~= self@);
        hash_bytes(bytes.as_slice())
    }
}

/// The aggregate hash depends on the set of matched paths alone: neither the
/// order in which a matcher lists them nor repetitions change it.
pub proof fn lemma_aggregate_order_independent(
    s: Seq<(Seq<char>, Seq<char>)>,
    a: Seq<Seq<char>>,
    b: Seq<Seq<char>>,
)
    requires
        a.to_set() == b.to_set(),
    ensures
        content_hash(matching_hash_bytes(s, a.to_set())) == content_hash(
            matching_hash_bytes(s, b.to_set()),
        ),
{
}

} // verus!
