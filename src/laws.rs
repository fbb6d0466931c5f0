//! Properties of incremental updates to the file table.

use vstd::prelude::*;
use crate::file_table::{
    after_update, entries_map, has_path, lemma_entry_in_map, lemma_unique_paths, strictly_sorted,
    with_entries, without_paths,
};
use crate::path_order::{lemma_path_lt_irreflexive, lemma_path_lt_transitive, path_lt};

verus! {

/// A strictly sorted table is determined by the mapping it holds: two tables
/// that hold the same mapping have the same entries in the same order.
pub proof fn lemma_sorted_table_determined(
    s1: Seq<(Seq<char>, Seq<char>)>,
    s2: Seq<(Seq<char>, Seq<char>)>,
)
    requires
        strictly_sorted(s1),
        strictly_sorted(s2),
        entries_map(s1) == entries_map(s2),
    ensures
        s1 == s2,
    decreases s1.len() + s2.len(),
{
    if s1.len() == 0 || s2.len() == 0 {
        if s1.len() > 0 {
            lemma_entry_in_map(s1, 0);
            assert(entries_map(s2).contains_key(s1[0].0));
            assert(has_path(s2, s1[0].0));
        }
        if s2.len() > 0 {
            lemma_entry_in_map(s2, 0);
            assert(entries_map(s1).contains_key(s2[0].0));
            assert(has_path(s1, s2[0].0));
        }
        assert(s1 =~= s2);
    } else {
        let a = s1[0].0;
        let b = s2[0].0;
        lemma_entry_in_map(s1, 0);
        lemma_entry_in_map(s2, 0);
        let j = choose|j: int| 0 <= j < s2.len() && #[trigger] s2[j].0 == a;
        let i = choose|i: int| 0 <= i < s1.len() && #[trigger] s1[i].0 == b;
        if a != b {
            assert(i > 0 && j > 0);
            lemma_path_lt_transitive(a, b, a);
            lemma_path_lt_irreflexive(a);
        }
        lemma_entry_in_map(s1, 0);
        lemma_entry_in_map(s2, 0);
        let t1 = s1.drop_first();
        let t2 = s2.drop_first();
        assert forall|q: Seq<char>| #[trigger] entries_map(t1).contains_key(q)
            == entries_map(t2).contains_key(q) by {
            if has_path(t1, q) {
                let k = choose|k: int| 0 <= k < t1.len() && #[trigger] t1[k].0 == q;
                lemma_entry_in_map(s1, k + 1);
                let l = choose|l: int| 0 <= l < s2.len() && #[trigger] s2[l].0 == q;
                if l == 0 {
                    lemma_unique_paths(s1, 0, k + 1);
                }
                assert(t2[l - 1].0 == q);
            }
            if has_path(t2, q) {
                let k = choose|k: int| 0 <= k < t2.len() && #[trigger] t2[k].0 == q;
                lemma_entry_in_map(s2, k + 1);
                let l = choose|l: int| 0 <= l < s1.len() && #[trigger] s1[l].0 == q;
                if l == 0 {
                    lemma_unique_paths(s2, 0, k + 1);
                }
                assert(t1[l - 1].0 == q);
            }
        }
        assert forall|q: Seq<char>| #[trigger] entries_map(t1).contains_key(q) implies entries_map(
            t1,
        )[q] == entries_map(t2)[q] by {
            let k = choose|k: int| 0 <= k < t1.len() && #[trigger] t1[k].0 == q;
            let l = choose|l: int| 0 <= l < t2.len() && #[trigger] t2[l].0 == q;
            lemma_entry_in_map(t1, k);
            lemma_entry_in_map(t2, l);
            lemma_entry_in_map(s1, k + 1);
            lemma_entry_in_map(s2, l + 1);
        }
        assert(entries_map(t1) =~= entries_map(t2));
        lemma_sorted_table_determined(t1, t2);
        assert(s1[0] == s2[0]);
        assert forall|k: int| 0 <= k < s1.len() implies s1[k] == s2[k] by {
            if k > 0 {
                assert(s1[k] == t1[k - 1] && s2[k] == t2[k - 1]);
            }
        }
        assert(s1 =~= s2);
    }
}

/// Deleting a path that the table does not hold changes nothing, and deleting a
/// path twice has the effect of deleting it once.
pub proof fn lemma_delete_absorbing(m: Map<Seq<char>, Seq<char>>, p: Seq<char>)
    ensures
        !m.contains_key(p) ==> after_update(m, seq![p], seq![]) == m,
        after_update(after_update(m, seq![p], seq![]), seq![p], seq![]) == after_update(
            m,
            seq![p],
            seq![],
        ),
        after_update(m, seq![p, p], seq![]) == after_update(m, seq![p], seq![]),
{
    reveal_with_fuel(without_paths, 3);
    let e: Seq<(Seq<char>, Seq<char>)> = seq![];
    assert(seq![p].drop_last() =~= Seq::<Seq<char>>::empty());
    assert(seq![p, p].drop_last() =~= seq![p]);
    assert(without_paths(m, seq![p]) == m.remove(p));
    assert(with_entries(m.remove(p), e) == m.remove(p));
    assert(m.remove(p).remove(p) =~= m.remove(p));
    assert(without_paths(m.remove(p), seq![p]) == m.remove(p).remove(p));
    if !m.contains_key(p) {
        assert(m.remove(p) =~= m);
    }
}

/// The same, for a table: deleting a path that a sorted table does not hold
/// leaves every sorted table of the result equal to the one before.
pub proof fn lemma_delete_absent_keeps_table(
    before: Seq<(Seq<char>, Seq<char>)>,
    after: Seq<(Seq<char>, Seq<char>)>,
    p: Seq<char>,
)
    requires
        strictly_sorted(before),
        strictly_sorted(after),
        !entries_map(before).contains_key(p),
        entries_map(after) == after_update(entries_map(before), seq![p], seq![]),
    ensures
        after == before,
{
    lemma_delete_absorbing(entries_map(before), p);
    lemma_sorted_table_determined(after, before);
}

/// Setting hash `h1` and then hash `h2` for path `p` leaves exactly one entry
/// of `p`, with hash `h2`.
pub proof fn lemma_update_overwrites(
    m: Map<Seq<char>, Seq<char>>,
    s: Seq<(Seq<char>, Seq<char>)>,
    p: Seq<char>,
    h1: Seq<char>,
    h2: Seq<char>,
)
    requires
        strictly_sorted(s),
        entries_map(s) == after_update(
            after_update(m, seq![], seq![(p, h1)]),
            seq![],
            seq![(p, h2)],
        ),
    ensures
        entries_map(s) == m.insert(p, h2),
        exists|i: int| 0 <= i < s.len() && s[i] == (p, h2),
        forall|i: int, j: int|
            0 <= i < s.len() && 0 <= j < s.len() && s[i].0 == p && s[j].0 == p ==> i == j,
{
    reveal_with_fuel(with_entries, 2);
    let d: Seq<Seq<char>> = seq![];
    assert(seq![(p, h1)].drop_last() =~= Seq::<(Seq<char>, Seq<char>)>::empty());
    assert(seq![(p, h2)].drop_last() =~= Seq::<(Seq<char>, Seq<char>)>::empty());
    assert(without_paths(m, d) == m);
    assert(after_update(m, d, seq![(p, h1)]) == m.insert(p, h1));
    assert(without_paths(m.insert(p, h1), d) == m.insert(p, h1));
    assert(m.insert(p, h1).insert(p, h2) =~= m.insert(p, h2));
    assert(entries_map(s).contains_key(p));
    let i = choose|i: int| 0 <= i < s.len() && #[trigger] s[i].0 == p;
    lemma_entry_in_map(s, i);
    assert(s[i] == (p, h2));
    assert forall|i: int, j: int|
        0 <= i < s.len() && 0 <= j < s.len() && s[i].0 == p && s[j].0 == p implies i == j by {
        lemma_unique_paths(s, i, j);
    }
}

} // verus!
