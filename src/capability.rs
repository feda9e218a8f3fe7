use vstd::prelude::*;

use crate::memory_state::{
    add_key_spec, batch_fits, apply_all, evicted_size, has_index, holes_after, holes_with,
    keys_view, kept, lookup_spec, mark_filled_spec, mark_hole_spec, partial_view, strip_keys,
    tag_index, wf_view, LookupResult, MemoryState, StateView,
};
use crate::single_state::{tags_of, IndexView};
use crate::types::{changes, covers, values, DataType, KeyType, Records, Tag};

verus! {

/// What every backing store of a node's state offers, stated over its model.
pub trait State: Sized {
    /// The rows and indices the store holds.
    spec fn model(&self) -> StateView;

    /// Adds an index keyed on `columns`, partial and filled by the given tags when
    /// `partial` holds them.
    fn add_key(&mut self, columns: &[usize], partial: Option<Vec<Tag>>)
        requires
            wf_view(old(self).model()),
            1 <= columns@.len() <= 6,
            forall|r: int| 0 <= r < old(self).model().rows.len() ==> covers(#[trigger] old(self).model().rows[r], columns@),
        ensures
            wf_view(final(self).model()),
            final(self).model() == add_key_spec(old(self).model(), columns@, tags_of(partial)),
    ;

    /// Whether the store is keyed on anything.
    fn is_useful(&self) -> (r: bool)
        ensures
            r == (self.model().indices.len() > 0),
    ;

    /// Whether any index is partial.
    fn is_partial(&self) -> (r: bool)
        ensures
            r == partial_view(self.model()),
    ;

    /// Applies a batch, taking out of it each record whose key is a hole in some index.
    fn process_records(&mut self, records: &mut Records, partial_tag: Option<Tag>)
        requires
            wf_view(old(self).model()),
            batch_fits(old(self).model(), changes(old(records)@)),
        ensures
            wf_view(final(self).model()),
            changes(final(records)@) == kept(old(self).model(), changes(old(records)@)),
            final(self).model().indices == old(self).model().indices,
            final(self).model().rows == apply_all(
                old(self).model().rows,
                kept(old(self).model(), changes(old(records)@)),
            ),
    ;

    /// Marks `key` as a hole, to be filled by `tag`, in the index that `tag` fills.
    fn mark_hole(&mut self, key: &[DataType], tag: &Tag)
        requires
            wf_view(old(self).model()),
        ensures
            wf_view(final(self).model()),
            final(self).model() == mark_hole_spec(old(self).model(), values(key@), tag.0),
    ;

    /// Clears the hole of `key` that `tag` was to fill.
    fn mark_filled(&mut self, key: Vec<DataType>, tag: &Tag)
        requires
            wf_view(old(self).model()),
            tag_index(old(self).model(), tag.0) >= 0,
        ensures
            wf_view(final(self).model()),
            final(self).model() == mark_filled_spec(old(self).model(), values(key@), tag.0),
    ;

    /// The rows under `key` in the index keyed on `columns`, or `Missing` for a hole.
    fn lookup<'a>(&'a self, columns: &[usize], key: &KeyType) -> (r: LookupResult<'a>)
        requires
            wf_view(self.model()),
            has_index(self.model(), columns@),
        ensures
            r@ == lookup_spec(self.model(), columns@, key@),
    ;

    /// The number of rows stored.
    fn rows(&self) -> (r: usize)
        ensures
            r == self.model().rows.len(),
    ;

    /// The key columns of each index, in the order the indices were added.
    fn keys(&self) -> (r: Vec<Vec<usize>>)
        ensures
            r@.len() == self.model().indices.len(),
            forall|i: int| 0 <= i < r@.len() ==> (#[trigger] r@[i])@ == self.model().indices[i].columns,
    ;

    /// An owned copy of every row; only for a store with no partial index.
    fn cloned_records(&self) -> (r: Vec<Vec<DataType>>)
        requires
            !partial_view(self.model()),
        ensures
            r@.map_values(|v: Vec<DataType>| values(v@)) == self.model().rows,
    ;

    /// Evicts up to `count` keys of the first index, with their rows.
    fn evict_random_keys(&mut self, count: usize) -> (r: (Vec<usize>, Vec<Vec<DataType>>, u64))
        requires
            wf_view(old(self).model()),
            old(self).model().indices.len() > 0,
        ensures
            wf_view(final(self).model()),
            r.0@ == old(self).model().indices[0].columns,
            keys_view(r.1@).len() <= count,
            keys_view(r.1@).len() == count || final(self).model().rows.len() == 0,
            final(self).model().rows == strip_keys(
                old(self).model().rows,
                old(self).model().indices[0].columns,
                keys_view(r.1@),
            ),
            final(self).model().indices == old(self).model().indices.update(
                0,
                IndexView {
                    holes: holes_after(old(self).model().indices[0], keys_view(r.1@)),
                    ..old(self).model().indices[0]
                },
            ),
            r.2 == crate::types::cap(
                evicted_size(old(self).model().rows, old(self).model().indices[0].columns, keys_view(r.1@)),
            ),
    ;

    /// Evicts the given keys from the index that `tag` fills, marking each as a hole.
    fn evict_keys(&mut self, tag: &Tag, keys: &[Vec<DataType>]) -> (r: Option<(Vec<usize>, u64)>)
        requires
            wf_view(old(self).model()),
        ensures
            wf_view(final(self).model()),
            r is None <==> tag_index(old(self).model(), tag.0) < 0,
            r is None ==> final(self).model() == old(self).model(),
            r matches Some((cols, freed)) ==> {
                let i = tag_index(old(self).model(), tag.0);
                let c = old(self).model().indices[i].columns;
                &&& cols@ == c
                &&& final(self).model().rows == strip_keys(old(self).model().rows, c, keys_view(keys@))
                &&& final(self).model().indices == old(self).model().indices.update(
                    i,
                    IndexView {
                        holes: holes_with(old(self).model().indices[i].holes, keys_view(keys@), tag.0),
                        ..old(self).model().indices[i]
                    },
                )
                &&& freed == crate::types::cap(evicted_size(old(self).model().rows, c, keys_view(keys@)))
            },
    ;
}

impl State for MemoryState {
    open spec fn model(&self) -> StateView {
        self@
    }

    fn add_key(&mut self, columns: &[usize], partial: Option<Vec<Tag>>) {
        MemoryState::add_key(self, columns, partial)
    }

    fn is_useful(&self) -> (r: bool) {
        MemoryState::is_useful(self)
    }

    fn is_partial(&self) -> (r: bool) {
        MemoryState::is_partial(self)
    }

    fn process_records(&mut self, records: &mut Records, partial_tag: Option<Tag>) {
        MemoryState::process_records(self, records, partial_tag)
    }

    fn mark_hole(&mut self, key: &[DataType], tag: &Tag) {
        MemoryState::mark_hole(self, key, tag)
    }

    fn mark_filled(&mut self, key: Vec<DataType>, tag: &Tag) {
        MemoryState::mark_filled(self, key, tag)
    }

    fn lookup<'a>(&'a self, columns: &[usize], key: &KeyType) -> (r: LookupResult<'a>) {
        MemoryState::lookup(self, columns, key)
    }

    fn rows(&self) -> (r: usize) {
        MemoryState::rows(self)
    }

    fn keys(&self) -> (r: Vec<Vec<usize>>) {
        MemoryState::keys(self)
    }

    fn cloned_records(&self) -> (r: Vec<Vec<DataType>>) {
        MemoryState::cloned_records(self)
    }

    fn evict_random_keys(&mut self, count: usize) -> (r: (Vec<usize>, Vec<Vec<DataType>>, u64)) {
        MemoryState::evict_random_keys(self, count)
    }

    fn evict_keys(&mut self, tag: &Tag, keys: &[Vec<DataType>]) -> (r: Option<(Vec<usize>, u64)>) {
        MemoryState::evict_keys(self, tag, keys)
    }
}

} // verus!
