use vstd::prelude::*;

use crate::types::{project, values, DataType, Tag, Value};

verus! {

/// The mathematical model of one index.
pub struct IndexView {
    /// The key columns, in order.
    pub columns: Seq<usize>,
    /// For a partial index, the tags of the replay paths that may fill its holes.
    pub tags: Option<Seq<u32>>,
    /// The holes, as pairs of a key and the tag that is to fill it.
    pub holes: Set<(Seq<Value>, u32)>,
}

/// Whether `key` is a hole of the index: it is partial and some tag has yet to fill the key.
pub open spec fn is_hole(ix: IndexView, key: Seq<Value>) -> bool {
    ix.tags is Some && exists|t: u32| ix.holes.contains((key, t))
}

/// Whether the index is partial and lists `tag` among those that fill it.
pub open spec fn has_tag(ix: IndexView, tag: u32) -> bool {
    ix.tags matches Some(ts) && ts.contains(tag)
}

/// The rows of `rows` whose key under `cols` is `key`, in order.
pub open spec fn matching(rows: Seq<Seq<Value>>, cols: Seq<usize>, key: Seq<Value>) -> Seq<
    Seq<Value>,
>
    decreases rows.len(),
{
    if rows.len() == 0 {
        Seq::empty()
    } else {
        let m = matching(rows.drop_last(), cols, key);
        if project(rows.last(), cols) == key {
            m.push(rows.last())
        } else {
            m
        }
    }
}

/// A key of a partial index marked as a hole, with the tag that is to fill it.
pub struct Hole {
    pub key: Vec<DataType>,
    pub tag: Tag,
}

impl View for Hole {
    type V = (Seq<Value>, u32);

    open spec fn view(&self) -> (Seq<Value>, u32) {
        (values(self.key@), self.tag.0)
    }
}

/// One index over the state's rows: its key columns and, if partial, its tags and holes.
pub struct SingleState {
    columns: Vec<usize>,
    partial: Option<Vec<Tag>>,
    holes: Vec<Hole>,
}

/// The tags of an index as given when it is added: `None` for a full index.
pub open spec fn tags_of(p: Option<Vec<Tag>>) -> Option<Seq<u32>> {
    match p {
        Some(ts) => Some(tag_ids(ts@)),
        None => None,
    }
}

/// The tags' numbers, in order.
pub open spec fn tag_ids(ts: Seq<Tag>) -> Seq<u32> {
    ts.map_values(|t: Tag| t.0)
}

impl View for SingleState {
    type V = IndexView;

    closed spec fn view(&self) -> IndexView {
        IndexView {
            columns: self.columns@,
            tags: tags_of(self.partial),
            holes: Set::new(|p: (Seq<Value>, u32)| exists|j: int| 0 <= j < self.holes@.len() && #[trigger] self.holes@[j]@ == p),
        }
    }
}

impl SingleState {
    /// A new index on `columns`, partial when `partial` holds its tags, with no holes.
    pub fn new(columns: Vec<usize>, partial: Option<Vec<Tag>>) -> (r: SingleState)
        ensures
            r@.columns == columns@,
            r@.tags == tags_of(partial),
            r@.holes == Set::<(Seq<Value>, u32)>::empty(),
    {
        let r = SingleState { columns, partial, holes: Vec::new() };
        assert(r@.holes =~= Set::<(Seq<Value>, u32)>::empty());
        r
    }

    /// The key columns.
    pub fn columns(&self) -> (r: &Vec<usize>)
        ensures
            r@ == self@.columns,
    {
        &self.columns
    }

    pub fn is_partial(&self) -> (r: bool)
        ensures
            r == (self@.tags is Some),
    {
        self.partial.is_some()
    }

    /// The tags of a partial index; empty for a full one.
    pub fn tags(&self) -> (r: Vec<Tag>)
        ensures
            self@.tags matches Some(ts) ==> tag_ids(r@) == ts,
            self@.tags is None ==> r@.len() == 0,
    {
        match &self.partial {
            Some(ts) => ts.clone(),
            None => Vec::new(),
        }
    }

    pub fn has_tag(&self, tag: &Tag) -> (r: bool)
        ensures
            r == has_tag(self@, tag.0),
    {
        match &self.partial {
            None => false,
            Some(ts) => {
                let mut i: usize = 0;
                while i < ts.len()
                    invariant
                        i <= ts.len(),
                        self.partial == Some(*ts),
                        forall|j: int| 0 <= j < i ==> ts@[j].0 != tag.0,
                    decreases ts.len() - i,
                {
                    if ts[i].0 == tag.0 {
                        assert(self@.tags == Some(tag_ids(ts@)));
                        assert(tag_ids(ts@)[i as int] == tag.0);
                        return true;
                    }
                    i += 1;
                }
                assert(self@.tags == Some(tag_ids(ts@)));
                assert(!tag_ids(ts@).contains(tag.0));
                false
            },
        }
    }

    /// Whether `key` is a hole of this index.
    pub fn is_hole(&self, key: &Vec<DataType>) -> (r: bool)
        ensures
            r == is_hole(self@, values(key@)),
    {
        if self.partial.is_none() {
            return false;
        }
        let mut i: usize = 0;
        while i < self.holes.len()
            invariant
                i <= self.holes@.len(),
                self.partial is Some,
                forall|j: int| 0 <= j < i ==> self.holes@[j]@.0 != values(key@),
            decreases self.holes@.len() - i,
        {
            if crate::types::same_values(&self.holes[i].key, key) {
                let ghost t = self.holes@[i as int].tag.0;
                assert(self.holes@[i as int]@ == (values(key@), t));
                assert(self@.holes.contains((values(key@), t)));
                assert(self@.tags is Some);
                return true;
            }
            i += 1;
        }
        proof {
            assert forall|t: u32| !self@.holes.contains((values(key@), t)) by {
                if self@.holes.contains((values(key@), t)) {
                    let j = choose|j: int| 0 <= j < self.holes@.len() && #[trigger] self.holes@[j]@ == (values(key@), t);
                    assert(self.holes@[j]@.0 == values(key@));
                }
            }
        }
        false
    }

    /// Marks `key` as a hole to be filled by `tag`.
    pub fn add_hole(&mut self, key: &Vec<DataType>, tag: Tag)
        ensures
            final(self)@.columns == old(self)@.columns,
            final(self)@.tags == old(self)@.tags,
            final(self)@.holes == old(self)@.holes.insert((values(key@), tag.0)),
    {
        let h = Hole { key: crate::types::copy_values(key), tag };
        self.holes.push(h);
        proof {
            let n = old(self).holes@.len();
            assert forall|p: (Seq<Value>, u32)| final(self)@.holes.contains(p) == old(self)@.holes.insert((values(key@), tag.0)).contains(p) by {
                if old(self)@.holes.contains(p) {
                    let j = choose|j: int| 0 <= j < n && #[trigger] old(self).holes@[j]@ == p;
                    assert(final(self).holes@[j]@ == p);
                }
                if final(self)@.holes.contains(p) {
                    let j = choose|j: int| 0 <= j < n + 1 && #[trigger] final(self).holes@[j]@ == p;
                    if j < n {
                        assert(old(self).holes@[j]@ == p);
                    }
                }
                assert(final(self).holes@[n as int]@ == (values(key@), tag.0));
            }
            assert(final(self)@.holes =~= old(self)@.holes.insert((values(key@), tag.0)));
        }
    }

    /// Clears the hole of `key` that `tag` was to fill.
    pub fn remove_hole(&mut self, key: &Vec<DataType>, tag: Tag)
        ensures
            final(self)@.columns == old(self)@.columns,
            final(self)@.tags == old(self)@.tags,
            final(self)@.holes == old(self)@.holes.remove((values(key@), tag.0)),
    {
        let ghost gone = (values(key@), tag.0);
        let mut kept: Vec<Hole> = Vec::new();
        let mut i: usize = 0;
        while i < self.holes.len()
            invariant
                i <= self.holes@.len(),
                gone == (values(key@), tag.0),
                forall|j: int| 0 <= j < kept@.len() ==> (#[trigger] kept@[j])@ != gone,
                forall|j: int| 0 <= j < kept@.len() ==> exists|k: int| 0 <= k < i && self.holes@[k]@ == (#[trigger] kept@[j])@,
                forall|k: int| 0 <= k < i && (#[trigger] self.holes@[k])@ != gone ==> exists|j: int| 0 <= j < kept@.len() && kept@[j]@ == self.holes@[k]@,
            decreases self.holes@.len() - i,
        {
            let h = &self.holes[i];
            let drop = h.tag.0 == tag.0 && crate::types::same_values(&h.key, key);
            if !drop {
                let c = Hole { key: crate::types::copy_values(&h.key), tag: h.tag };
                assert(c@ == self.holes@[i as int]@);
                assert(c@ != gone);
                let ghost prev = kept@;
                kept.push(c);
                proof {
                    assert(kept@ == prev.push(c));
                    assert forall|k: int| 0 <= k < i + 1 && (#[trigger] self.holes@[k])@ != gone implies exists|j: int| 0 <= j < kept@.len() && kept@[j]@ == self.holes@[k]@ by {
                        if k == i {
                            assert(kept@[prev.len() as int]@ == self.holes@[k]@);
                        } else {
                            let j = choose|j: int| 0 <= j < prev.len() && prev[j]@ == self.holes@[k]@;
                            assert(kept@[j]@ == self.holes@[k]@);
                        }
                    }
                    assert forall|j: int| 0 <= j < kept@.len() implies exists|k: int| 0 <= k < i + 1 && self.holes@[k]@ == (#[trigger] kept@[j])@ by {
                        if j == prev.len() {
                            assert(self.holes@[i as int]@ == kept@[j]@);
                        } else {
                            assert(kept@[j] == prev[j]);
                        }
                    }
                }
            } else {
                assert(self.holes@[i as int]@ == gone);
            }
            i += 1;
        }
        let ghost old_holes = self@.holes;
        self.holes = kept;
        proof {
            assert forall|p: (Seq<Value>, u32)| self@.holes.contains(p) == old_holes.remove(gone).contains(p) by {
                if self@.holes.contains(p) {
                    let j = choose|j: int| 0 <= j < self.holes@.len() && #[trigger] self.holes@[j]@ == p;
                    assert(kept@[j]@ == p);
                }
                if old_holes.remove(gone).contains(p) {
                    let k = choose|k: int| 0 <= k < old(self).holes@.len() && #[trigger] old(self).holes@[k]@ == p;
                    assert(old(self).holes@[k]@ != gone);
                }
            }
            assert(self@.holes =~= old_holes.remove(gone));
        }
    }
}

} // verus!
