use vstd::prelude::*;

use crate::memory_state::{
    apply_all, evicted_size, first_with_tag, has_index, hole_in_any, holes_after, index_of, kept,
    lookup_spec, mark_filled_spec, mark_hole_spec, partial_view, rows_size, strip_keys, tag_index,
    with_holes, without_key, wf_view, StateView,
};
use crate::single_state::{has_tag, is_hole, matching, IndexView};
use crate::types::{change_row, covers, project, Change, Value};

verus! {

/// In a state with no partial index, a row inserted by a batch is among the rows that a
/// lookup of its key then yields, on every index.
pub proof fn lemma_insert_then_lookup(s: StateView, row: Seq<Value>, cols: Seq<usize>)
    requires
        wf_view(s),
        !partial_view(s),
        has_index(s, cols),
    ensures
        ({
            let after = StateView { rows: apply_all(s.rows, kept(s, seq![Change::Insert(row)])), indices: s.indices };
            lookup_spec(after, cols, project(row, cols)) matches Some(rs) && rs.contains(row)
        }),
{
    let cs = seq![Change::Insert(row)];
    assert(!hole_in_any(s, row));
    assert(cs.drop_last() =~= Seq::<Change>::empty());
    assert(cs.last() == Change::Insert(row));
    assert(change_row(cs.last()) == row);
    assert(kept(s, cs.drop_last()) =~= Seq::<Change>::empty());
    assert(kept(s, cs) =~= seq![Change::Insert(row)]);
    let k = kept(s, cs);
    assert(k.drop_last() =~= Seq::<Change>::empty());
    assert(k.last() == Change::Insert(row));
    assert(apply_all(s.rows, k.drop_last()) == s.rows);
    assert(apply_all(s.rows, k) == s.rows.push(row));
    let rows = s.rows.push(row);
    assert(rows.drop_last() =~= s.rows);
    let m = matching(rows, cols, project(row, cols));
    assert(m[m.len() - 1] == row);
    let after = StateView { rows, indices: s.indices };
    let i = index_of(after, cols);
    assert(s.indices[i].tags is None);
}

/// A record whose key is a hole in some index never stays in a batch; so a batch made
/// only of such records leaves the rows as they were.
pub proof fn lemma_hole_records_stripped(s: StateView, cs: Seq<Change>)
    ensures
        forall|c: Change| #[trigger] kept(s, cs).contains(c) ==> !hole_in_any(s, change_row(c)),
        (forall|j: int| 0 <= j < cs.len() ==> hole_in_any(s, change_row(#[trigger] cs[j]))) ==> apply_all(s.rows, kept(s, cs)) == s.rows,
    decreases cs.len(),
{
    if cs.len() > 0 {
        lemma_hole_records_stripped(s, cs.drop_last());
        let k = kept(s, cs.drop_last());
        assert forall|c: Change| #[trigger] kept(s, cs).contains(c) implies !hole_in_any(s, change_row(c)) by {
            let q = choose|q: int| 0 <= q < kept(s, cs).len() && kept(s, cs)[q] == c;
            if !hole_in_any(s, change_row(cs.last())) {
                if q < k.len() {
                    assert(k[q] == c);
                    assert(k.contains(c));
                } else {
                    assert(c == cs.last());
                }
            } else {
                assert(k[q] == c);
                assert(k.contains(c));
            }
        }
        if forall|j: int| 0 <= j < cs.len() ==> hole_in_any(s, change_row(#[trigger] cs[j])) {
            assert forall|j: int| 0 <= j < cs.drop_last().len() implies hole_in_any(s, change_row(#[trigger] cs.drop_last()[j])) by {
                assert(cs.drop_last()[j] == cs[j]);
            }
            assert(hole_in_any(s, change_row(cs[cs.len() - 1])));
        }
    } else {
        assert(kept(s, cs) =~= Seq::<Change>::empty());
    }
}

/// Which index a tag fills does not depend on the holes.
proof fn lemma_tag_index_ignores_holes(ixs: Seq<IndexView>, i: int, h: Set<(Seq<Value>, u32)>, tag: u32, start: int)
    requires
        0 <= i < ixs.len(),
    ensures
        first_with_tag(ixs.update(i, IndexView { holes: h, ..ixs[i] }), tag, start) == first_with_tag(ixs, tag, start),
    decreases ixs.len() - start,
{
    let ys = ixs.update(i, IndexView { holes: h, ..ixs[i] });
    if 0 <= start < ixs.len() {
        assert(has_tag(ys[start], tag) == has_tag(ixs[start], tag));
        lemma_tag_index_ignores_holes(ixs, i, h, tag, start + 1);
    }
}

/// Marking a key as a hole and then filling it with the same tag gives back the state as
/// it was, and so every lookup as it was, where that key was not a hole under that tag.
pub proof fn lemma_hole_then_fill(s: StateView, key: Seq<Value>, tag: u32)
    requires
        tag_index(s, tag) >= 0 ==> !s.indices[tag_index(s, tag)].holes.contains((key, tag)),
    ensures
        mark_filled_spec(mark_hole_spec(s, key, tag), key, tag) == s,
{
    let i = tag_index(s, tag);
    if i >= 0 {
        lemma_first_in_range(s.indices, tag, 0);
        let h = s.indices[i].holes;
        let s1 = mark_hole_spec(s, key, tag);
        lemma_tag_index_ignores_holes(s.indices, i, h.insert((key, tag)), tag, 0);
        assert(tag_index(s1, tag) == i);
        assert(h.insert((key, tag)).remove((key, tag)) =~= h);
        let s2 = mark_filled_spec(s1, key, tag);
        assert(s2.indices =~= s.indices);
    }
}

proof fn lemma_first_in_range(ixs: Seq<IndexView>, tag: u32, start: int)
    ensures
        first_with_tag(ixs, tag, start) < ixs.len(),
        first_with_tag(ixs, tag, start) >= 0 ==> first_with_tag(ixs, tag, start) >= start,
    decreases ixs.len() - start,
{
    if 0 <= start < ixs.len() {
        lemma_first_in_range(ixs, tag, start + 1);
    }
}

/// No row under `key` is left once `key` is removed.
proof fn lemma_without_key_none(rows: Seq<Seq<Value>>, cols: Seq<usize>, key: Seq<Value>)
    ensures
        matching(without_key(rows, cols, key), cols, key).len() == 0,
    decreases rows.len(),
{
    if rows.len() > 0 {
        lemma_without_key_none(rows.drop_last(), cols, key);
        let w = without_key(rows.drop_last(), cols, key);
        if project(rows.last(), cols) != key {
            assert(w.push(rows.last()).drop_last() =~= w);
        }
    }
}

/// Removing one key never adds rows under another.
proof fn lemma_without_key_fewer(rows: Seq<Seq<Value>>, cols: Seq<usize>, other: Seq<Value>, key: Seq<Value>)
    ensures
        matching(without_key(rows, cols, other), cols, key).len() <= matching(rows, cols, key).len(),
    decreases rows.len(),
{
    if rows.len() > 0 {
        lemma_without_key_fewer(rows.drop_last(), cols, other, key);
        let w = without_key(rows.drop_last(), cols, other);
        if project(rows.last(), cols) != other {
            assert(w.push(rows.last()).drop_last() =~= w);
        }
    }
}

/// After the keys `ks` are removed, no row is left under any of them.
pub proof fn lemma_strip_keys_none(rows: Seq<Seq<Value>>, cols: Seq<usize>, ks: Seq<Seq<Value>>, key: Seq<Value>)
    requires
        ks.contains(key),
    ensures
        matching(strip_keys(rows, cols, ks), cols, key).len() == 0,
    decreases ks.len(),
{
    let prev = strip_keys(rows, cols, ks.drop_last());
    if ks.last() == key {
        lemma_without_key_none(prev, cols, key);
    } else {
        let q = choose|q: int| 0 <= q < ks.len() && ks[q] == key;
        assert(ks.drop_last()[q] == key);
        lemma_strip_keys_none(rows, cols, ks.drop_last(), key);
        lemma_without_key_fewer(prev, cols, ks.last(), key);
    }
}

/// The rows' bytes split between those under `key` and the others.
proof fn lemma_size_split(rows: Seq<Seq<Value>>, cols: Seq<usize>, key: Seq<Value>)
    ensures
        rows_size(rows) == rows_size(without_key(rows, cols, key)) + rows_size(matching(rows, cols, key)),
    decreases rows.len(),
{
    if rows.len() > 0 {
        lemma_size_split(rows.drop_last(), cols, key);
        let w = without_key(rows.drop_last(), cols, key);
        let m = matching(rows.drop_last(), cols, key);
        assert(w.push(rows.last()).drop_last() =~= w);
        assert(m.push(rows.last()).drop_last() =~= m);
    }
}

/// The bytes counted for an eviction are those of the rows that it removed.
pub proof fn lemma_evicted_size_is_removed(rows: Seq<Seq<Value>>, cols: Seq<usize>, ks: Seq<Seq<Value>>)
    ensures
        evicted_size(rows, cols, ks) == rows_size(rows) - rows_size(strip_keys(rows, cols, ks)),
    decreases ks.len(),
{
    if ks.len() > 0 {
        lemma_evicted_size_is_removed(rows, cols, ks.drop_last());
        lemma_size_split(strip_keys(rows, cols, ks.drop_last()), cols, ks.last());
    }
}

/// After an eviction from the first index, a lookup there of an evicted key yields no row
/// where the index is full, and `Missing` where it is partial with at least one tag.
pub proof fn lemma_evicted_key_lookup(s: StateView, ks: Seq<Seq<Value>>, key: Seq<Value>)
    requires
        wf_view(s),
        s.indices.len() > 0,
        ks.contains(key),
    ensures
        ({
            let c = s.indices[0].columns;
            let after = StateView {
                rows: strip_keys(s.rows, c, ks),
                indices: s.indices.update(0, IndexView { holes: holes_after(s.indices[0], ks), ..s.indices[0] }),
            };
            &&& s.indices[0].tags is None ==> lookup_spec(after, c, key) == Some(Seq::<Seq<Value>>::empty())
            &&& (s.indices[0].tags matches Some(ts) && ts.len() > 0) ==> lookup_spec(after, c, key) is None
        }),
{
    let c = s.indices[0].columns;
    let ix = IndexView { holes: holes_after(s.indices[0], ks), ..s.indices[0] };
    let after = StateView { rows: strip_keys(s.rows, c, ks), indices: s.indices.update(0, ix) };
    assert(after.indices[0].columns == c);
    let i = index_of(after, c);
    if i != 0 {
        assert(s.indices[i].columns == after.indices[i].columns);
    }
    assert(i == 0);
    lemma_strip_keys_none(s.rows, c, ks, key);
    assert(matching(after.rows, c, key) =~= Seq::<Seq<Value>>::empty());
    if s.indices[0].tags is Some && s.indices[0].tags->Some_0.len() > 0 {
        let ts = s.indices[0].tags->Some_0;
        assert(ts.contains(ts[0]));
        assert(has_tag(s.indices[0], ts[0]));
        assert(ix.holes.contains((key, ts[0])));
        assert(is_hole(ix, key));
    }
}

} // verus!
