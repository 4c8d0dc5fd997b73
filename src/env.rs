use crate::word::{Word, WordView};
use indexmap::IndexMap;
use vstd::prelude::*;

verus! {

#[verifier::external_type_specification]
#[verifier::external_body]
#[verifier::reject_recursive_types(K)]
#[verifier::reject_recursive_types(V)]
#[verifier::reject_recursive_types(S)]
pub struct ExIndexMap<K, V, S>(IndexMap<K, V, S>);

/// The entries of a definition table, names with their bodies, in the order
/// in which the names were first inserted.
pub uninterp spec fn table_entries(m: IndexMap<String, Vec<Word>>) -> Seq<(Seq<char>, Seq<WordView>)>;

/// The mathematical values of the words of a body.
pub open spec fn body_view(v: Seq<Word>) -> Seq<WordView> {
    v.map_values(|w: Word| w@)
}

/// Relies on `IndexMap::new`: a new map has no entries.
#[verifier::external_body]
pub(crate) fn table_new() -> (r: IndexMap<String, Vec<Word>>)
    ensures
        table_entries(r) == Seq::<(Seq<char>, Seq<WordView>)>::empty(),
{
    IndexMap::new()
}

/// Relies on `IndexMap::get`: the body stored under an entry whose name
/// equals `k`, or nothing when no entry has that name.
#[verifier::external_body]
pub(crate) fn table_get<'a>(m: &'a IndexMap<String, Vec<Word>>, k: &str) -> (r: Option<&'a Vec<Word>>)
    ensures
        r is None ==> forall|i: int|
            0 <= i < table_entries(*m).len() ==> (#[trigger] table_entries(*m)[i]).0 != k@,
        r matches Some(v) ==> exists|i: int|
            0 <= i < table_entries(*m).len() && (#[trigger] table_entries(*m)[i]).0 == k@
                && table_entries(*m)[i].1 == body_view(v@),
{
    m.get(k)
}

/// Relies on `IndexMap::insert_full`: an entry whose name equals `k` keeps its
/// place and takes the new body, and its index is returned; otherwise the pair
/// is added last, at the returned index.
#[verifier::external_body]
pub(crate) fn table_insert(m: &mut IndexMap<String, Vec<Word>>, k: String, v: Vec<Word>) -> (r: usize)
    ensures
        ({
            let before = table_entries(*old(m));
            let after = table_entries(*final(m));
            ||| (r < before.len() && before[r as int].0 == k@ && after == before.update(
                r as int,
                (k@, body_view(v@)),
            ))
            ||| (r == before.len() && (forall|i: int|
                0 <= i < before.len() ==> (#[trigger] before[i]).0 != k@) && after == before.push(
                (k@, body_view(v@)),
            ))
        }),
{
    m.insert_full(k, v).0
}

/// Relies on `IndexMap::len`: the number of entries.
#[verifier::external_body]
pub(crate) fn table_len(m: &IndexMap<String, Vec<Word>>) -> (r: usize)
    ensures
        r == table_entries(*m).len(),
{
    m.len()
}

/// Relies on `IndexMap::get_index`: the name of the entry at position `i` in
/// insertion order, or nothing past the end.
#[verifier::external_body]
pub(crate) fn table_name_at<'a>(m: &'a IndexMap<String, Vec<Word>>, i: usize) -> (r: Option<&'a String>)
    ensures
        r is None <==> i >= table_entries(*m).len(),
        r matches Some(k) ==> k@ == table_entries(*m)[i as int].0,
{
    m.get_index(i).map(|e| e.0)
}

/// No two entries share a name.
pub open spec fn names_unique(es: Seq<(Seq<char>, Seq<WordView>)>) -> bool {
    forall|i: int, j: int|
        0 <= i < es.len() && 0 <= j < es.len() && i != j ==> (#[trigger] es[i]).0 != (#[trigger] es[j]).0
}

/// The definitions as a map from name to body; a later entry wins.
pub open spec fn entries_map(es: Seq<(Seq<char>, Seq<WordView>)>) -> Map<Seq<char>, Seq<WordView>>
    decreases es.len(),
{
    if es.len() == 0 {
        Map::empty()
    } else {
        entries_map(es.drop_last()).insert(es.last().0, es.last().1)
    }
}

/// The entries after defining `k` as `v`: an existing name keeps its place.
pub open spec fn insert_entry(es: Seq<(Seq<char>, Seq<WordView>)>, k: Seq<char>, v: Seq<WordView>) -> Seq<(Seq<char>, Seq<WordView>)> {
    if exists|i: int| 0 <= i < es.len() && (#[trigger] es[i]).0 == k {
        let i = choose|i: int| 0 <= i < es.len() && (#[trigger] es[i]).0 == k;
        es.update(i, (k, v))
    } else {
        es.push((k, v))
    }
}

/// With unique names, a name is in the map exactly when some entry has it,
/// and it maps to that entry's body.
pub proof fn lemma_entries_map_find(es: Seq<(Seq<char>, Seq<WordView>)>, k: Seq<char>)
    requires
        names_unique(es),
    ensures
        entries_map(es).contains_key(k) <==> exists|i: int| 0 <= i < es.len() && (#[trigger] es[i]).0 == k,
        forall|i: int| 0 <= i < es.len() && (#[trigger] es[i]).0 == k ==> entries_map(es)[k] == es[i].1,
    decreases es.len(),
{
    if es.len() > 0 {
        let init = es.drop_last();
        assert(names_unique(init)) by {
            assert forall|i: int, j: int|
                0 <= i < init.len() && 0 <= j < init.len() && i != j implies (#[trigger] init[i]).0 != (#[trigger] init[j]).0 by {
                assert(init[i] == es[i] && init[j] == es[j]);
            }
        }
        lemma_entries_map_find(init, k);
        if exists|i: int| 0 <= i < es.len() && (#[trigger] es[i]).0 == k {
            let i = choose|i: int| 0 <= i < es.len() && (#[trigger] es[i]).0 == k;
            if i < es.len() - 1 {
                assert(init[i] == es[i]);
            }
        }
        if exists|i: int| 0 <= i < init.len() && (#[trigger] init[i]).0 == k {
            let i = choose|i: int| 0 <= i < init.len() && (#[trigger] init[i]).0 == k;
            assert(es[i] == init[i]);
        }
        assert forall|i: int| 0 <= i < es.len() && (#[trigger] es[i]).0 == k implies entries_map(es)[k] == es[i].1 by {
            if i < es.len() - 1 {
                assert(init[i] == es[i]);
                assert(es[es.len() - 1].0 != k);
            }
        }
    }
}

/// Defining a name keeps names unique and updates the map at that name.
pub proof fn lemma_insert_entry(es: Seq<(Seq<char>, Seq<WordView>)>, k: Seq<char>, v: Seq<WordView>)
    requires
        names_unique(es),
    ensures
        names_unique(insert_entry(es, k, v)),
        entries_map(insert_entry(es, k, v)) == entries_map(es).insert(k, v),
{
    let after = insert_entry(es, k, v);
    if exists|i: int| 0 <= i < es.len() && (#[trigger] es[i]).0 == k {
        let i = choose|i: int| 0 <= i < es.len() && (#[trigger] es[i]).0 == k;
        assert(after == es.update(i, (k, v)));
        assert forall|a: int, b: int|
            0 <= a < after.len() && 0 <= b < after.len() && a != b implies (#[trigger] after[a]).0 != (#[trigger] after[b]).0 by {
            assert(after[a].0 == es[a].0);
            assert(after[b].0 == es[b].0);
        }
        lemma_entries_map_find(es, k);
        lemma_entries_map_find(after, k);
        assert forall|q: Seq<char>| #![auto] entries_map(after).contains_key(q) <==> entries_map(es).insert(k, v).contains_key(q) by {
            lemma_entries_map_find(es, q);
            lemma_entries_map_find(after, q);
            if exists|j: int| 0 <= j < es.len() && (#[trigger] es[j]).0 == q {
                let j = choose|j: int| 0 <= j < es.len() && (#[trigger] es[j]).0 == q;
                assert(after[j].0 == q);
            }
            if exists|j: int| 0 <= j < after.len() && (#[trigger] after[j]).0 == q {
                let j = choose|j: int| 0 <= j < after.len() && (#[trigger] after[j]).0 == q;
                assert(es[j].0 == q);
            }
        }
        assert forall|q: Seq<char>| #![auto] entries_map(after).contains_key(q) implies entries_map(after)[q] == entries_map(es).insert(k, v)[q] by {
            lemma_entries_map_find(es, q);
            lemma_entries_map_find(after, q);
            let j = choose|j: int| 0 <= j < after.len() && (#[trigger] after[j]).0 == q;
            if q != k {
                assert(j != i);
                assert(es[j] == after[j]);
            }
        }
        assert(entries_map(after) =~= entries_map(es).insert(k, v));
    } else {
        assert(after == es.push((k, v)));
        assert(after.drop_last() =~= es);
        assert forall|a: int, b: int|
            0 <= a < after.len() && 0 <= b < after.len() && a != b implies (#[trigger] after[a]).0 != (#[trigger] after[b]).0 by {
            if a < es.len() {
                assert(after[a] == es[a]);
            }
            if b < es.len() {
                assert(after[b] == es[b]);
            }
        }
    }
}

} // verus!
