use vstd::prelude::*;

use crate::single_state::{has_tag, is_hole, matching, tags_of, IndexView, SingleState};
use crate::types::{
    cap, change_row, changes, covers, project, row_size, project_values, same_values, values, Change, DataType,
    KeyType, Record, Records, Row, Tag, Value,
};

verus! {

/// The mathematical model of a state: its rows, stored once, and its indices over them.
pub struct StateView {
    pub rows: Seq<Seq<Value>>,
    pub indices: Seq<IndexView>,
}

/// Every index has one to six key columns, no two indices share their columns, and
/// every row holds every key column of every index.
pub open spec fn wf_view(s: StateView) -> bool {
    &&& forall|i: int| 0 <= i < s.indices.len() ==> 1 <= (#[trigger] s.indices[i]).columns.len() <= 6
    &&& forall|i: int, j: int|
        0 <= i < s.indices.len() && 0 <= j < s.indices.len() && i != j ==> (#[trigger] s.indices[i]).columns != (#[trigger] s.indices[j]).columns
    &&& forall|r: int, i: int|
        0 <= r < s.rows.len() && 0 <= i < s.indices.len() ==> covers(#[trigger] s.rows[r], (#[trigger] s.indices[i]).columns)
}

/// Whether some index is keyed on exactly `cols`.
pub open spec fn has_index(s: StateView, cols: Seq<usize>) -> bool {
    exists|i: int| 0 <= i < s.indices.len() && (#[trigger] s.indices[i]).columns == cols
}

/// The position of the index keyed on `cols`.
pub open spec fn index_of(s: StateView, cols: Seq<usize>) -> int {
    choose|i: int| 0 <= i < s.indices.len() && (#[trigger] s.indices[i]).columns == cols
}

/// What a lookup of `key` on the index keyed on `cols` yields: `None` for a hole,
/// else the rows stored under `key`.
pub open spec fn lookup_spec(s: StateView, cols: Seq<usize>, key: Seq<Value>) -> Option<Seq<Seq<Value>>> {
    if is_hole(s.indices[index_of(s, cols)], key) {
        None
    } else {
        Some(matching(s.rows, cols, key))
    }
}

/// Whether any index is partial.
pub open spec fn partial_view(s: StateView) -> bool {
    exists|i: int| 0 <= i < s.indices.len() && (#[trigger] s.indices[i]).tags is Some
}

/// The first index, from `start` on, that `tag` fills; -1 if there is none.
pub open spec fn first_with_tag(ixs: Seq<IndexView>, tag: u32, start: int) -> int
    decreases ixs.len() - start,
{
    if start < 0 || start >= ixs.len() {
        -1
    } else if has_tag(ixs[start], tag) {
        start
    } else {
        first_with_tag(ixs, tag, start + 1)
    }
}

/// The index that `tag` fills; -1 if there is none.
pub open spec fn tag_index(s: StateView, tag: u32) -> int {
    first_with_tag(s.indices, tag, 0)
}

/// The state with the holes of index `i` replaced.
pub open spec fn with_holes(s: StateView, i: int, holes: Set<(Seq<Value>, u32)>) -> StateView {
    StateView {
        rows: s.rows,
        indices: s.indices.update(i, IndexView { holes, ..s.indices[i] }),
    }
}

/// `key` marked as a hole, to be filled by `tag`, in the index that `tag` fills.
pub open spec fn mark_hole_spec(s: StateView, key: Seq<Value>, tag: u32) -> StateView {
    let i = tag_index(s, tag);
    if i < 0 {
        s
    } else {
        with_holes(s, i, s.indices[i].holes.insert((key, tag)))
    }
}

/// The hole of `key` that `tag` was to fill cleared, in the index that `tag` fills.
pub open spec fn mark_filled_spec(s: StateView, key: Seq<Value>, tag: u32) -> StateView {
    let i = tag_index(s, tag);
    if i < 0 {
        s
    } else {
        with_holes(s, i, s.indices[i].holes.remove((key, tag)))
    }
}

/// The holes that a new index starts with, given the first `n` rows stored: for a partial
/// index, the key of each of those rows under every tag of the index; none for a full one.
pub open spec fn initial_holes(rows: Seq<Seq<Value>>, n: int, cols: Seq<usize>, tags: Option<Seq<u32>>) -> Set<
    (Seq<Value>, u32),
> {
    Set::new(
        |p: (Seq<Value>, u32)|
            tags matches Some(ts) && ts.contains(p.1) && exists|x: int| 0 <= x < n && project(#[trigger] rows[x], cols) == p.0,
    )
}

/// The state after `add_key`, unless an index on `cols` exists: a new index over the
/// stored rows, in which a partial index has every key of them as a hole.
pub open spec fn add_key_spec(s: StateView, cols: Seq<usize>, tags: Option<Seq<u32>>) -> StateView {
    if has_index(s, cols) {
        s
    } else {
        StateView {
            rows: s.rows,
            indices: s.indices.push(
                IndexView { columns: cols, tags, holes: initial_holes(s.rows, s.rows.len() as int, cols, tags) },
            ),
        }
    }
}

/// Whether `row`'s key is a hole in some index.
pub open spec fn hole_in_any(s: StateView, row: Seq<Value>) -> bool {
    exists|i: int| 0 <= i < s.indices.len() && is_hole(#[trigger] s.indices[i], project(row, s.indices[i].columns))
}

/// The records of a batch that `process_records` keeps: those whose key is a hole in
/// no index, in order.
pub open spec fn kept(s: StateView, cs: Seq<Change>) -> Seq<Change>
    decreases cs.len(),
{
    if cs.len() == 0 {
        Seq::empty()
    } else {
        let k = kept(s, cs.drop_last());
        if hole_in_any(s, change_row(cs.last())) {
            k
        } else {
            k.push(cs.last())
        }
    }
}

/// The first position, from `start` on, of a row equal to `r`; -1 if there is none.
pub open spec fn find_row(rows: Seq<Seq<Value>>, r: Seq<Value>, start: int) -> int
    decreases rows.len() - start,
{
    if start < 0 || start >= rows.len() {
        -1
    } else if rows[start] == r {
        start
    } else {
        find_row(rows, r, start + 1)
    }
}

/// The rows after one change: an insertion appends its row; a deletion removes the first
/// equal row, if there is one.
pub open spec fn apply(rows: Seq<Seq<Value>>, c: Change) -> Seq<Seq<Value>> {
    match c {
        Change::Insert(r) => rows.push(r),
        Change::Delete(r) => {
            let i = find_row(rows, r, 0);
            if i < 0 {
                rows
            } else {
                rows.remove(i)
            }
        },
    }
}

/// The rows after a sequence of changes, applied in order.
pub open spec fn apply_all(rows: Seq<Seq<Value>>, cs: Seq<Change>) -> Seq<Seq<Value>>
    decreases cs.len(),
{
    if cs.len() == 0 {
        rows
    } else {
        apply(apply_all(rows, cs.drop_last()), cs.last())
    }
}

/// Whether every record of the batch holds every key column of every index.
pub open spec fn batch_fits(s: StateView, cs: Seq<Change>) -> bool {
    forall|k: int, i: int|
        0 <= k < cs.len() && 0 <= i < s.indices.len() ==> covers(change_row(#[trigger] cs[k]), (#[trigger] s.indices[i]).columns)
}

/// The rows of `rows` whose key under `cols` is not `key`, in order.
pub open spec fn without_key(rows: Seq<Seq<Value>>, cols: Seq<usize>, key: Seq<Value>) -> Seq<
    Seq<Value>,
>
    decreases rows.len(),
{
    if rows.len() == 0 {
        Seq::empty()
    } else {
        let w = without_key(rows.drop_last(), cols, key);
        if project(rows.last(), cols) == key {
            w
        } else {
            w.push(rows.last())
        }
    }
}

/// The bytes accounted to a sequence of rows.
pub open spec fn rows_size(rows: Seq<Seq<Value>>) -> int
    decreases rows.len(),
{
    if rows.len() == 0 {
        0
    } else {
        rows_size(rows.drop_last()) + row_size(rows.last())
    }
}

/// The rows left once the keys `ks` are removed, one after another.
pub open spec fn strip_keys(rows: Seq<Seq<Value>>, cols: Seq<usize>, ks: Seq<Seq<Value>>) -> Seq<
    Seq<Value>,
>
    decreases ks.len(),
{
    if ks.len() == 0 {
        rows
    } else {
        without_key(strip_keys(rows, cols, ks.drop_last()), cols, ks.last())
    }
}

/// The bytes of the rows that removing the keys `ks`, one after another, takes away.
pub open spec fn evicted_size(rows: Seq<Seq<Value>>, cols: Seq<usize>, ks: Seq<Seq<Value>>) -> int
    decreases ks.len(),
{
    if ks.len() == 0 {
        0
    } else {
        evicted_size(rows, cols, ks.drop_last()) + rows_size(
            matching(strip_keys(rows, cols, ks.drop_last()), cols, ks.last()),
        )
    }
}

/// The holes of `ix` once each key of `ks` is marked as a hole under every tag of `ix`.
pub open spec fn holes_after(ix: IndexView, ks: Seq<Seq<Value>>) -> Set<(Seq<Value>, u32)> {
    Set::new(|p: (Seq<Value>, u32)| ix.holes.contains(p) || (ks.contains(p.0) && has_tag(ix, p.1)))
}

/// `holes` with each key of `ks` marked as a hole under `tag`.
pub open spec fn holes_with(holes: Set<(Seq<Value>, u32)>, ks: Seq<Seq<Value>>, tag: u32) -> Set<(Seq<Value>, u32)> {
    Set::new(|p: (Seq<Value>, u32)| holes.contains(p) || (ks.contains(p.0) && p.1 == tag))
}

pub proof fn lemma_rows_size_nonneg(rows: Seq<Seq<Value>>)
    ensures
        rows_size(rows) >= 0,
    decreases rows.len(),
{
    if rows.len() > 0 {
        lemma_rows_size_nonneg(rows.drop_last());
        crate::types::lemma_sizes_sum_nonneg(rows.last());
    }
}

/// A row whose key is `key` makes the rows under `key` non-empty.
pub proof fn lemma_matching_nonempty(rows: Seq<Seq<Value>>, cols: Seq<usize>, key: Seq<Value>, x: int)
    requires
        0 <= x < rows.len(),
        project(rows[x], cols) == key,
    ensures
        matching(rows, cols, key).len() > 0,
    decreases rows.len(),
{
    if x < rows.len() - 1 {
        lemma_matching_nonempty(rows.drop_last(), cols, key, x);
    }
}

/// The holes of `ix` with `key` marked under the first `m` of the tags `ts`.
pub open spec fn tagged_holes(ix: IndexView, key: Seq<Value>, ts: Seq<Tag>, m: int) -> Set<(Seq<Value>, u32)> {
    Set::new(|p: (Seq<Value>, u32)| ix.holes.contains(p) || (p.0 == key && exists|q: int| 0 <= q < m && ts[q].0 == p.1))
}

/// The values of a list of keys.
pub open spec fn keys_view(ks: Seq<Vec<DataType>>) -> Seq<Seq<Value>> {
    ks.map_values(|k: Vec<DataType>| values(k@))
}

pub proof fn lemma_evicted_size_nonneg(rows: Seq<Seq<Value>>, cols: Seq<usize>, ks: Seq<Seq<Value>>)
    ensures
        evicted_size(rows, cols, ks) >= 0,
    decreases ks.len(),
{
    if ks.len() > 0 {
        lemma_evicted_size_nonneg(rows, cols, ks.drop_last());
        lemma_rows_size_nonneg(matching(strip_keys(rows, cols, ks.drop_last()), cols, ks.last()));
    }
}

/// Removing a key that some row holds leaves fewer rows.
pub proof fn lemma_without_key_shrinks(rows: Seq<Seq<Value>>, cols: Seq<usize>, key: Seq<Value>, x: int)
    requires
        0 <= x < rows.len(),
        project(rows[x], cols) == key,
    ensures
        without_key(rows, cols, key).len() < rows.len(),
    decreases rows.len(),
{
    lemma_without_key_len(rows.drop_last(), cols, key);
    if x < rows.len() - 1 {
        lemma_without_key_shrinks(rows.drop_last(), cols, key, x);
    }
}

pub proof fn lemma_without_key_len(rows: Seq<Seq<Value>>, cols: Seq<usize>, key: Seq<Value>)
    ensures
        without_key(rows, cols, key).len() <= rows.len(),
    decreases rows.len(),
{
    if rows.len() > 0 {
        lemma_without_key_len(rows.drop_last(), cols, key);
    }
}

/// The rows a lookup hands back: references to stored rows, or owned copies.
pub enum RecordResult<'a> {
    Borrowed(Vec<&'a Row>),
    Owned(Vec<Vec<DataType>>),
}

impl<'a> View for RecordResult<'a> {
    type V = Seq<Seq<Value>>;

    open spec fn view(&self) -> Seq<Seq<Value>> {
        match self {
            RecordResult::Borrowed(rs) => rs@.map_values(|r: &Row| r@),
            RecordResult::Owned(rs) => rs@.map_values(|r: Vec<DataType>| values(r@)),
        }
    }
}

impl<'a> RecordResult<'a> {
    pub fn len(&self) -> (r: usize)
        ensures
            r == self@.len(),
    {
        match self {
            RecordResult::Borrowed(rs) => rs.len(),
            RecordResult::Owned(rs) => rs.len(),
        }
    }

    /// Owned copies of the rows, in order.
    pub fn to_rows(&self) -> (r: Vec<Vec<DataType>>)
        ensures
            r@.map_values(|v: Vec<DataType>| values(v@)) == self@,
    {
        let mut r: Vec<Vec<DataType>> = Vec::new();
        let n = self.len();
        let mut i: usize = 0;
        while i < n
            invariant
                n == self@.len(),
                i <= n,
                r@.len() == i,
                forall|j: int| 0 <= j < i ==> values((#[trigger] r@[j])@) == self@[j],
            decreases n - i,
        {
            let v = match self {
                RecordResult::Borrowed(rs) => crate::types::copy_values(rs[i].columns()),
                RecordResult::Owned(rs) => crate::types::copy_values(&rs[i]),
            };
            r.push(v);
            i += 1;
        }
        assert(r@.map_values(|v: Vec<DataType>| values(v@)) =~= self@);
        r
    }
}

/// The outcome of a lookup: the rows under the key, or `Missing` where the key is a hole.
pub enum LookupResult<'a> {
    Found(RecordResult<'a>),
    Missing,
}

impl<'a> View for LookupResult<'a> {
    type V = Option<Seq<Seq<Value>>>;

    open spec fn view(&self) -> Option<Seq<Seq<Value>>> {
        match self {
            LookupResult::Found(rs) => Some(rs@),
            LookupResult::Missing => None,
        }
    }
}

/// A state held in memory: the rows, stored once, and the indices over them.
pub struct MemoryState {
    state: Vec<SingleState>,
    rows: Vec<Row>,
}

impl View for MemoryState {
    type V = StateView;

    closed spec fn view(&self) -> StateView {
        StateView {
            rows: self.rows@.map_values(|r: Row| r@),
            indices: self.state@.map_values(|s: SingleState| s@),
        }
    }
}

/// Whether two column lists are equal.
fn same_columns(a: &[usize], b: &Vec<usize>) -> (r: bool)
    ensures
        r == (a@ == b@),
{
    if a.len() != b.len() {
        return false;
    }
    let mut i: usize = 0;
    while i < a.len()
        invariant
            a@.len() == b@.len(),
            i <= a@.len(),
            forall|j: int| 0 <= j < i ==> a@[j] == b@[j],
        decreases a@.len() - i,
    {
        if a[i] != b[i] {
            return false;
        }
        i += 1;
    }
    assert(a@ =~= b@);
    true
}

/// A copy of a column list.
fn copy_columns(a: &[usize]) -> (r: Vec<usize>)
    ensures
        r@ == a@,
{
    let mut r: Vec<usize> = Vec::new();
    let mut i: usize = 0;
    while i < a.len()
        invariant
            i <= a@.len(),
            r@ == a@.take(i as int),
        decreases a@.len() - i,
    {
        r.push(a[i]);
        i += 1;
        assert(r@ =~= a@.take(i as int));
    }
    assert(a@.take(a@.len() as int) =~= a@);
    r
}

impl MemoryState {
    pub open spec fn wf(&self) -> bool {
        wf_view(self@)
    }

    /// An empty state with no index.
    pub fn new() -> (r: MemoryState)
        ensures
            r.wf(),
            r@.rows.len() == 0,
            r@.indices.len() == 0,
    {
        let r = MemoryState { state: Vec::new(), rows: Vec::new() };
        assert(r@.rows =~= Seq::<Seq<Value>>::empty());
        r
    }

    /// The position of the index keyed on `columns`, if any.
    fn find_index(&self, columns: &[usize]) -> (r: Option<usize>)
        requires
            self.wf(),
        ensures
            r is Some <==> has_index(self@, columns@),
            r matches Some(i) ==> i == index_of(self@, columns@) && i < self@.indices.len(),
    {
        let mut i: usize = 0;
        while i < self.state.len()
            invariant
                i <= self.state@.len(),
                self.wf(),
                forall|j: int| 0 <= j < i ==> (#[trigger] self@.indices[j]).columns != columns@,
            decreases self.state@.len() - i,
        {
            if same_columns(columns, self.state[i].columns()) {
                assert(self@.indices[i as int].columns == columns@);
                let ghost k = index_of(self@, columns@);
                assert(k == i);
                return Some(i);
            }
            i += 1;
        }
        None
    }

    /// Whether the state is keyed on anything.
    pub fn is_useful(&self) -> (r: bool)
        ensures
            r == (self@.indices.len() > 0),
    {
        self.state.len() > 0
    }

    /// Whether any index is partial.
    pub fn is_partial(&self) -> (r: bool)
        ensures
            r == partial_view(self@),
    {
        let mut i: usize = 0;
        while i < self.state.len()
            invariant
                i <= self.state@.len(),
                forall|j: int| 0 <= j < i ==> (#[trigger] self@.indices[j]).tags is None,
            decreases self.state@.len() - i,
        {
            if self.state[i].is_partial() {
                assert(self@.indices[i as int].tags is Some);
                return true;
            }
            i += 1;
        }
        false
    }

    /// The number of rows stored.
    pub fn rows(&self) -> (r: usize)
        ensures
            r == self@.rows.len(),
    {
        self.rows.len()
    }

    /// The key columns of each index, in the order the indices were added.
    pub fn keys(&self) -> (r: Vec<Vec<usize>>)
        ensures
            r@.len() == self@.indices.len(),
            forall|i: int| 0 <= i < r@.len() ==> (#[trigger] r@[i])@ == self@.indices[i].columns,
    {
        let mut r: Vec<Vec<usize>> = Vec::new();
        let mut i: usize = 0;
        while i < self.state.len()
            invariant
                i <= self.state@.len(),
                r@.len() == i,
                forall|j: int| 0 <= j < i ==> (#[trigger] r@[j])@ == self@.indices[j].columns,
            decreases self.state@.len() - i,
        {
            r.push(self.state[i].columns().clone());
            i += 1;
        }
        r
    }

    /// An owned copy of every row; only for a state with no partial index.
    pub fn cloned_records(&self) -> (r: Vec<Vec<DataType>>)
        requires
            !partial_view(self@),
        ensures
            r@.map_values(|v: Vec<DataType>| values(v@)) == self@.rows,
    {
        let mut r: Vec<Vec<DataType>> = Vec::new();
        let mut i: usize = 0;
        while i < self.rows.len()
            invariant
                i <= self.rows@.len(),
                r@.len() == i,
                forall|j: int| 0 <= j < i ==> values((#[trigger] r@[j])@) == self@.rows[j],
            decreases self.rows@.len() - i,
        {
            r.push(crate::types::copy_values(self.rows[i].columns()));
            i += 1;
        }
        assert(r@.map_values(|v: Vec<DataType>| values(v@)) =~= self@.rows);
        r
    }

    /// Adds an index keyed on `columns`, partial and filled by the given tags when
    /// `partial` holds them; nothing changes if an index on `columns` exists.
    pub fn add_key(&mut self, columns: &[usize], partial: Option<Vec<Tag>>)
        requires
            old(self).wf(),
            1 <= columns@.len() <= 6,
            forall|r: int| 0 <= r < old(self)@.rows.len() ==> covers(#[trigger] old(self)@.rows[r], columns@),
        ensures
            final(self).wf(),
            final(self)@ == add_key_spec(old(self)@, columns@, tags_of(partial)),
    {
        if self.find_index(columns).is_some() {
            return;
        }
        let ghost tags = tags_of(partial);
        let ghost rows = old(self)@.rows;
        let cols = copy_columns(columns);
        let key_cols = copy_columns(columns);
        let ix = SingleState::new(cols, partial);
        self.state.push(ix);
        let n = self.state.len() - 1;
        proof {
            assert(initial_holes(rows, 0, columns@, tags) =~= Set::<(Seq<Value>, u32)>::empty());
            assert(self@.indices =~= old(self)@.indices.push(
                IndexView { columns: columns@, tags, holes: initial_holes(rows, 0, columns@, tags) },
            ));
            assert(self@.rows =~= rows);
        }
        let mut j: usize = 0;
        while j < self.rows.len()
            invariant
                j <= self@.rows.len(),
                self.wf(),
                n == old(self)@.indices.len(),
                key_cols@ == columns@,
                self@.rows == rows,
                rows == old(self)@.rows,
                self@.indices == old(self)@.indices.push(
                    IndexView { columns: columns@, tags, holes: initial_holes(rows, j as int, columns@, tags) },
                ),
            decreases self@.rows.len() - j,
        {
            assert(self@.indices.len() == n + 1);
            assert(covers(self@.rows[j as int], self@.indices[n as int].columns));
            let key = project_values(self.rows[j].columns(), &key_cols);
            let ghost k = values(key@);
            let ghost before = self@.indices[n as int];
            self.hole_all_tags(n, &key);
            proof {
                let h0 = holes_after(before, seq![k]);
                let h1 = initial_holes(rows, j + 1, columns@, tags);
                assert forall|p: (Seq<Value>, u32)| h0.contains(p) == h1.contains(p) by {
                    if seq![k].contains(p.0) {
                        assert(seq![k][0] == k);
                    }
                    if p.0 == k {
                        assert(seq![k][0] == k);
                        assert(project(rows[j as int], columns@) == p.0);
                    }
                    if h1.contains(p) {
                        let x = choose|x: int| 0 <= x < j + 1 && project(#[trigger] rows[x], columns@) == p.0;
                        if x < j {
                            assert(initial_holes(rows, j as int, columns@, tags).contains(p));
                        }
                    }
                }
                assert(h0 =~= h1);
                assert(self@.indices =~= old(self)@.indices.push(
                    IndexView { columns: columns@, tags, holes: h1 },
                ));
            }
            j += 1;
        }
    }

    /// The index that `tag` fills, if any.
    fn find_tag(&self, tag: &Tag) -> (r: Option<usize>)
        ensures
            r is None <==> tag_index(self@, tag.0) < 0,
            r matches Some(i) ==> i == tag_index(self@, tag.0) && i < self@.indices.len(),
    {
        let mut i: usize = 0;
        while i < self.state.len()
            invariant
                i <= self.state@.len(),
                first_with_tag(self@.indices, tag.0, 0) == first_with_tag(self@.indices, tag.0, i as int),
            decreases self.state@.len() - i,
        {
            if self.state[i].has_tag(tag) {
                return Some(i);
            }
            i += 1;
        }
        None
    }

    /// Marks `key` as a hole, to be filled by `tag`, in the index that `tag` fills.
    pub fn mark_hole(&mut self, key: &[DataType], tag: &Tag)
        requires
            old(self).wf(),
        ensures
            final(self).wf(),
            final(self)@ == mark_hole_spec(old(self)@, values(key@), tag.0),
    {
        if let Some(i) = self.find_tag(tag) {
            let k = crate::types::copy_values(key);
            self.state[i].add_hole(&k, *tag);
            proof {
                let expect = mark_hole_spec(old(self)@, values(key@), tag.0);
                assert(self@.indices =~= expect.indices);
                assert(self@.rows =~= expect.rows);
            }
        }
    }

    /// Clears the hole of `key` that `tag` was to fill.
    pub fn mark_filled(&mut self, key: Vec<DataType>, tag: &Tag)
        requires
            old(self).wf(),
            tag_index(old(self)@, tag.0) >= 0,
        ensures
            final(self).wf(),
            final(self)@ == mark_filled_spec(old(self)@, values(key@), tag.0),
    {
        if let Some(i) = self.find_tag(tag) {
            self.state[i].remove_hole(&key, *tag);
            proof {
                let expect = mark_filled_spec(old(self)@, values(key@), tag.0);
                assert(self@.indices =~= expect.indices);
                assert(self@.rows =~= expect.rows);
            }
        }
    }

    /// The rows stored under `key` in the index keyed on `columns`, or `Missing` where
    /// that index is partial and `key` is a hole.
    pub fn lookup<'a>(&'a self, columns: &[usize], key: &KeyType) -> (r: LookupResult<'a>)
        requires
            self.wf(),
            has_index(self@, columns@),
        ensures
            r@ == lookup_spec(self@, columns@, key@),
            r matches LookupResult::Found(rs) ==> rs is Borrowed,
    {
        let i = match self.find_index(columns) {
            Some(i) => i,
            None => {
                return LookupResult::Missing;
            },
        };
        let kv = key.values();
        let ix = &self.state[i];
        if ix.is_hole(&kv) {
            return LookupResult::Missing;
        }
        let cols = ix.columns();
        let mut out: Vec<&Row> = Vec::new();
        let mut j: usize = 0;
        while j < self.rows.len()
            invariant
                j <= self.rows@.len(),
                self.wf(),
                i < self@.indices.len(),
                cols@ == self@.indices[i as int].columns,
                cols@ == columns@,
                values(kv@) == key@,
                out@.map_values(|r: &Row| r@) == matching(self@.rows.take(j as int), columns@, key@),
            decreases self.rows@.len() - j,
        {
            let row = &self.rows[j];
            assert(covers(self@.rows[j as int], self@.indices[i as int].columns));
            let pk = project_values(row.columns(), cols);
            let ghost prev = out@;
            proof {
                let t = self@.rows.take(j + 1);
                assert(t.drop_last() =~= self@.rows.take(j as int));
                assert(t.last() == row@);
            }
            if same_values(&pk, &kv) {
                out.push(row);
                assert(out@.map_values(|r: &Row| r@) =~= prev.map_values(|r: &Row| r@).push(row@));
            }
            j += 1;
        }
        assert(self@.rows.take(self@.rows.len() as int) =~= self@.rows);
        LookupResult::Found(RecordResult::Borrowed(out))
    }

    /// Whether the key of `row` is a hole in some index.
    fn hole_for(&self, row: &Vec<DataType>) -> (r: bool)
        requires
            self.wf(),
            forall|i: int| 0 <= i < self@.indices.len() ==> covers(values(row@), (#[trigger] self@.indices[i]).columns),
        ensures
            r == hole_in_any(self@, values(row@)),
    {
        let mut i: usize = 0;
        while i < self.state.len()
            invariant
                i <= self.state@.len(),
                forall|i: int| 0 <= i < self@.indices.len() ==> covers(values(row@), (#[trigger] self@.indices[i]).columns),
                forall|j: int| 0 <= j < i ==> !is_hole(#[trigger] self@.indices[j], project(values(row@), self@.indices[j].columns)),
            decreases self.state@.len() - i,
        {
            let ix = &self.state[i];
            assert(covers(values(row@), self@.indices[i as int].columns));
            let key = project_values(row, ix.columns());
            if ix.is_hole(&key) {
                return true;
            }
            i += 1;
        }
        false
    }

    /// Applies one record to the rows.
    fn apply_record(&mut self, rec: &Record)
        requires
            old(self).wf(),
            forall|i: int| 0 <= i < old(self)@.indices.len() ==> covers(change_row(rec@), (#[trigger] old(self)@.indices[i]).columns),
        ensures
            final(self).wf(),
            final(self)@.indices == old(self)@.indices,
            final(self)@.rows == apply(old(self)@.rows, rec@),
    {
        let row = rec.row();
        if rec.is_positive() {
            self.rows.push(Row(crate::types::copy_values(row)));
            proof {
                assert(self@.rows =~= old(self)@.rows.push(change_row(rec@)));
                assert(self@.indices =~= old(self)@.indices);
            }
            return;
        }
        let mut j: usize = 0;
        while j < self.rows.len()
            invariant
                j <= self.rows@.len(),
                self@ == old(self)@,
                old(self).wf(),
                rec@ is Delete,
                values(row@) == change_row(rec@),
                find_row(self@.rows, values(row@), 0) == find_row(self@.rows, values(row@), j as int),
            decreases self.rows@.len() - j,
        {
            if same_values(self.rows[j].columns(), row) {
                assert(self@.rows[j as int] == values(row@));
                assert(find_row(self@.rows, values(row@), j as int) == j);
                assert(rec@ == Change::Delete(values(row@)));
                self.rows.remove(j);
                proof {
                    assert(self@.rows =~= old(self)@.rows.remove(j as int));
                    assert(self@.indices =~= old(self)@.indices);
                    assert forall|r: int, i: int|
                        0 <= r < self@.rows.len() && 0 <= i < self@.indices.len() implies covers(#[trigger] self@.rows[r], (#[trigger] self@.indices[i]).columns) by {
                        assert(self@.indices[i] == old(self)@.indices[i]);
                        if r < j {
                            assert(self@.rows[r] == old(self)@.rows[r]);
                            assert(covers(old(self)@.rows[r], old(self)@.indices[i].columns));
                        } else {
                            assert(self@.rows[r] == old(self)@.rows[r + 1]);
                            assert(covers(old(self)@.rows[r + 1], old(self)@.indices[i].columns));
                        }
                    }
                }
                return;
            }
            j += 1;
        }
    }

    /// Applies a batch of insertions and deletions. A record whose key is a hole in some
    /// index is taken out of `records` and not applied; the others are applied in order.
    /// `partial_tag` names the replay a batch belongs to; it does not change what is kept.
    pub fn process_records(&mut self, records: &mut Records, partial_tag: Option<Tag>)
        requires
            old(self).wf(),
            batch_fits(old(self)@, changes(old(records)@)),
        ensures
            final(self).wf(),
            changes(final(records)@) == kept(old(self)@, changes(old(records)@)),
            final(self)@.indices == old(self)@.indices,
            final(self)@.rows == apply_all(old(self)@.rows, kept(old(self)@, changes(old(records)@))),
    {
        let mut out: Vec<Record> = Vec::new();
        let mut i: usize = 0;
        while i < records.len()
            invariant
                i <= records@.len(),
                records@ == old(records)@,
                self.wf(),
                self@.indices == old(self)@.indices,
                batch_fits(old(self)@, changes(old(records)@)),
                changes(out@) == kept(old(self)@, changes(records@.take(i as int))),
                self@.rows == apply_all(old(self)@.rows, changes(out@)),
            decreases records@.len() - i,
        {
            let rec = &records[i];
            proof {
                let cs = changes(records@.take(i + 1));
                assert(cs.drop_last() =~= changes(records@.take(i as int)));
                assert(cs.last() == rec@);
                assert forall|x: int| 0 <= x < self@.indices.len() implies covers(change_row(rec@), (#[trigger] self@.indices[x]).columns) by {
                    assert(changes(old(records)@)[i as int] == rec@);
                }
            }
            if !self.hole_for(rec.row()) {
                let c = rec.duplicate();
                let ghost prev = out@;
                self.apply_record(&c);
                out.push(c);
                proof {
                    assert(changes(out@) =~= changes(prev).push(c@));
                    assert(changes(out@).drop_last() =~= changes(prev));
                }
            }
            i += 1;
        }
        proof {
            assert(records@.take(records@.len() as int) =~= records@);
        }
        *records = out;
    }

    /// Removes the rows whose key under index `i` is `key`, returning their bytes, saturated.
    fn remove_key(&mut self, i: usize, key: &Vec<DataType>) -> (freed: u64)
        requires
            old(self).wf(),
            i < old(self)@.indices.len(),
        ensures
            final(self).wf(),
            final(self)@.indices == old(self)@.indices,
            final(self)@.rows == without_key(old(self)@.rows, old(self)@.indices[i as int].columns, values(key@)),
            freed == cap(rows_size(matching(old(self)@.rows, old(self)@.indices[i as int].columns, values(key@)))),
    {
        let cols = self.state[i].columns().clone();
        let ghost c = cols@;
        let ghost k = values(key@);
        let mut kept: Vec<Row> = Vec::new();
        let mut freed: u64 = 0;
        let mut j: usize = 0;
        while j < self.rows.len()
            invariant
                j <= self.rows@.len(),
                self@ == old(self)@,
                self.wf(),
                i < self@.indices.len(),
                c == self@.indices[i as int].columns,
                cols@ == c,
                k == values(key@),
                kept@.map_values(|r: Row| r@) == without_key(self@.rows.take(j as int), c, k),
                forall|x: int, y: int|
                    0 <= x < kept@.len() && 0 <= y < self@.indices.len() ==> covers((#[trigger] kept@[x])@, (#[trigger] self@.indices[y]).columns),
                freed == cap(rows_size(matching(self@.rows.take(j as int), c, k))),
            decreases self.rows@.len() - j,
        {
            let row = &self.rows[j];
            assert(covers(self@.rows[j as int], self@.indices[i as int].columns));
            let pk = project_values(row.columns(), &cols);
            let ghost t = self@.rows.take(j + 1);
            proof {
                assert(t.drop_last() =~= self@.rows.take(j as int));
                assert(t.last() == row@);
            }
            if same_values(&pk, key) {
                let n = row.deep_size_of();
                proof {
                    lemma_rows_size_nonneg(matching(self@.rows.take(j as int), c, k));
                    crate::types::lemma_sizes_sum_nonneg(row@);
                    crate::types::lemma_cap_add(
                        rows_size(matching(self@.rows.take(j as int), c, k)),
                        crate::types::row_size(row@),
                    );
                    assert(matching(t, c, k).drop_last() =~= matching(self@.rows.take(j as int), c, k));
                }
                freed = freed.saturating_add(n);
            } else {
                let ghost prev = kept@;
                kept.push(Row(crate::types::copy_values(row.columns())));
                proof {
                    assert(kept@.map_values(|r: Row| r@) =~= prev.map_values(|r: Row| r@).push(row@));
                    assert forall|x: int, y: int|
                        0 <= x < kept@.len() && 0 <= y < self@.indices.len() implies covers((#[trigger] kept@[x])@, (#[trigger] self@.indices[y]).columns) by {
                        if x == prev.len() {
                            assert(covers(self@.rows[j as int], self@.indices[y].columns));
                        } else {
                            assert(kept@[x] == prev[x]);
                        }
                    }
                }
            }
            j += 1;
        }
        proof {
            assert(self@.rows.take(self@.rows.len() as int) =~= self@.rows);
        }
        self.rows = kept;
        proof {
            assert(self@.indices =~= old(self)@.indices);
            assert forall|x: int, y: int|
                0 <= x < self@.rows.len() && 0 <= y < self@.indices.len() implies covers(#[trigger] self@.rows[x], (#[trigger] self@.indices[y]).columns) by {
                assert(self@.rows[x] == kept@[x]@);
            }
        }
        freed
    }

    /// Marks `key` as a hole of index `i` under every tag of that index.
    fn hole_all_tags(&mut self, i: usize, key: &Vec<DataType>)
        requires
            old(self).wf(),
            i < old(self)@.indices.len(),
        ensures
            final(self).wf(),
            final(self)@.rows == old(self)@.rows,
            final(self)@.indices == old(self)@.indices.update(
                i as int,
                IndexView { holes: holes_after(old(self)@.indices[i as int], seq![values(key@)]), ..old(self)@.indices[i as int] },
            ),
    {
        let tags = self.state[i].tags();
        let ghost ix = old(self)@.indices[i as int];
        let ghost k = values(key@);
        proof {
            assert(tagged_holes(ix, k, tags@, 0) =~= ix.holes);
            assert(old(self)@.indices.update(i as int, IndexView { holes: ix.holes, ..ix }) =~= old(self)@.indices);
        }
        let mut m: usize = 0;
        while m < tags.len()
            invariant
                m <= tags@.len(),
                i < self@.indices.len(),
                i < old(self)@.indices.len(),
                self.wf(),
                ix == old(self)@.indices[i as int],
                k == values(key@),
                ix.tags matches Some(ts) ==> crate::single_state::tag_ids(tags@) == ts,
                ix.tags is None ==> tags@.len() == 0,
                self@.rows == old(self)@.rows,
                self@.indices == old(self)@.indices.update(
                    i as int,
                    IndexView { holes: tagged_holes(ix, k, tags@, m as int), ..ix },
                ),
            decreases tags@.len() - m,
        {
            let ghost before = self@;
            let ghost before_state = self.state@;
            proof {
                let x = IndexView { holes: tagged_holes(ix, k, tags@, m as int), ..ix };
                assert(before.indices == old(self)@.indices.update(i as int, x));
                assert(i < old(self)@.indices.len());
                assert(before.indices[i as int] == x);
            }
            self.state[i].add_hole(key, tags[m]);
            proof {
                let h = tagged_holes(ix, k, tags@, m + 1);
                let pm = (k, tags@[m as int].0);
                assert forall|p: (Seq<Value>, u32)| #[trigger] h.contains(p) == tagged_holes(ix, k, tags@, m as int).insert(pm).contains(p) by {
                    if p == pm {
                        assert(h.contains(p));
                    }
                    if h.contains(p) && !ix.holes.contains(p) {
                        let q = choose|q: int| 0 <= q < m + 1 && tags@[q].0 == p.1;
                        if q < m {
                            assert(tagged_holes(ix, k, tags@, m as int).contains(p));
                        } else {
                            assert(p == pm);
                        }
                    }
                }
                assert(before.indices[i as int] == IndexView { holes: tagged_holes(ix, k, tags@, m as int), ..ix });
                assert(tagged_holes(ix, k, tags@, m as int).insert(pm) =~= h);
                assert(self@.indices[i as int].holes == h);
                let y = IndexView { holes: h, ..ix };
                assert(self@.indices[i as int] == y);
                assert(self@.indices.len() == before.indices.len());
                assert forall|j: int| 0 <= j < self@.indices.len() && j != i implies self@.indices[j] == before.indices[j] by {
                    assert(self.state@[j] == before_state[j]);
                }
                assert(self@.indices =~= before.indices.update(i as int, y));
                assert(self@.indices =~= old(self)@.indices.update(i as int, y));
                assert(self@.rows =~= old(self)@.rows);
            }
            m += 1;
        }
        proof {
            let h = holes_after(ix, seq![k]);
            let h2 = tagged_holes(ix, k, tags@, tags@.len() as int);
            assert forall|p: (Seq<Value>, u32)| h.contains(p) == h2.contains(p) by {
                assert(seq![k].contains(p.0) == (p.0 == k)) by {
                    if p.0 == k {
                        assert(seq![k][0] == k);
                    }
                }
                if ix.tags is Some {
                    let ts = crate::single_state::tag_ids(tags@);
                    if p.0 == k && has_tag(ix, p.1) {
                        let q = choose|q: int| 0 <= q < ts.len() && ts[q] == p.1;
                        assert(tags@[q].0 == p.1);
                    }
                    if p.0 == k && exists|q: int| 0 <= q < tags@.len() && tags@[q].0 == p.1 {
                        let q = choose|q: int| 0 <= q < tags@.len() && tags@[q].0 == p.1;
                        assert(ts[q] == p.1);
                    }
                }
            }
            assert(h =~= h2);
        }
    }

    /// Marks `key` as a hole of index `i`, to be filled by `tag`.
    fn add_hole_at(&mut self, i: usize, key: &Vec<DataType>, tag: Tag)
        requires
            old(self).wf(),
            i < old(self)@.indices.len(),
        ensures
            final(self).wf(),
            final(self)@ == with_holes(old(self)@, i as int, old(self)@.indices[i as int].holes.insert((values(key@), tag.0))),
    {
        self.state[i].add_hole(key, tag);
        proof {
            let expect = with_holes(old(self)@, i as int, old(self)@.indices[i as int].holes.insert((values(key@), tag.0)));
            assert forall|j: int| 0 <= j < self@.indices.len() && j != i implies self@.indices[j] == old(self)@.indices[j] by {
                assert(self.state@[j] == old(self).state@[j]);
            }
            assert(self@.indices =~= expect.indices);
            assert(self@.rows =~= expect.rows);
        }
    }

    /// Evicts up to `count` keys of the first index, taking each time the key of the
    /// oldest row left, with all rows stored under it. Where the index is partial, each
    /// evicted key becomes a hole under every tag of the index. Returns the index's key
    /// columns, the evicted keys, and the bytes of the evicted rows, saturated.
    pub fn evict_random_keys(&mut self, count: usize) -> (r: (Vec<usize>, Vec<Vec<DataType>>, u64))
        requires
            old(self).wf(),
            old(self)@.indices.len() > 0,
        ensures
            final(self).wf(),
            r.0@ == old(self)@.indices[0].columns,
            keys_view(r.1@).len() <= count,
            keys_view(r.1@).len() == count || final(self)@.rows.len() == 0,
            forall|j: int|
                0 <= j < keys_view(r.1@).len() ==> matching(
                    strip_keys(old(self)@.rows, old(self)@.indices[0].columns, keys_view(r.1@).take(j)),
                    old(self)@.indices[0].columns,
                    #[trigger] keys_view(r.1@)[j],
                ).len() > 0,
            final(self)@.rows == strip_keys(old(self)@.rows, old(self)@.indices[0].columns, keys_view(r.1@)),
            final(self)@.indices == old(self)@.indices.update(
                0,
                IndexView { holes: holes_after(old(self)@.indices[0], keys_view(r.1@)), ..old(self)@.indices[0] },
            ),
            r.2 == cap(evicted_size(old(self)@.rows, old(self)@.indices[0].columns, keys_view(r.1@))),
    {
        let cols = self.state[0].columns().clone();
        let ghost c = cols@;
        let ghost ix = old(self)@.indices[0];
        let mut out: Vec<Vec<DataType>> = Vec::new();
        let mut freed: u64 = 0;
        proof {
            assert(keys_view(out@) =~= Seq::<Seq<Value>>::empty());
            assert(holes_after(ix, Seq::empty()) =~= ix.holes);
            assert(old(self)@.indices.update(0, IndexView { holes: ix.holes, ..ix }) =~= old(self)@.indices);
        }
        while out.len() < count && self.rows.len() > 0
            invariant
                self.wf(),
                out@.len() <= count,
                old(self)@.indices.len() > 0,
                c == old(self)@.indices[0].columns,
                cols@ == c,
                ix == old(self)@.indices[0],
                self@.indices.len() == old(self)@.indices.len(),
                forall|j: int|
                    0 <= j < keys_view(out@).len() ==> matching(
                        strip_keys(old(self)@.rows, c, keys_view(out@).take(j)),
                        c,
                        #[trigger] keys_view(out@)[j],
                    ).len() > 0,
                self@.rows == strip_keys(old(self)@.rows, c, keys_view(out@)),
                self@.indices == old(self)@.indices.update(
                    0,
                    IndexView { holes: holes_after(ix, keys_view(out@)), ..ix },
                ),
                freed == cap(evicted_size(old(self)@.rows, c, keys_view(out@))),
            decreases self@.rows.len(),
        {
            let ghost ks = keys_view(out@);
            let ghost rows0 = self@.rows;
            assert(covers(self@.rows[0], self@.indices[0].columns));
            let key = project_values(self.rows[0].columns(), &cols);
            let ghost k = values(key@);
            proof {
                lemma_matching_nonempty(rows0, c, k, 0);
            }
            let n = self.remove_key(0, &key);
            proof {
                lemma_evicted_size_nonneg(old(self)@.rows, c, ks);
                lemma_rows_size_nonneg(matching(rows0, c, k));
                crate::types::lemma_cap_add(evicted_size(old(self)@.rows, c, ks), rows_size(matching(rows0, c, k)));
                lemma_without_key_shrinks(rows0, c, k, 0);
            }
            freed = freed.saturating_add(n);
            self.hole_all_tags(0, &key);
            out.push(key);
            proof {
                let ks2 = keys_view(out@);
                assert(ks2 =~= ks.push(k));
                assert(ks2.drop_last() =~= ks);
                assert forall|j: int| 0 <= j < ks2.len() implies matching(
                    strip_keys(old(self)@.rows, c, ks2.take(j)),
                    c,
                    #[trigger] ks2[j],
                ).len() > 0 by {
                    if j < ks.len() {
                        assert(ks2.take(j) =~= ks.take(j));
                        assert(ks2[j] == ks[j]);
                    } else {
                        assert(ks2.take(j) =~= ks);
                    }
                }
                let h1 = holes_after(IndexView { holes: holes_after(ix, ks), ..ix }, seq![k]);
                assert forall|p: (Seq<Value>, u32)| h1.contains(p) == holes_after(ix, ks2).contains(p) by {
                    if p.0 == k {
                        assert(ks2[ks.len() as int] == k);
                    }
                    if seq![k].contains(p.0) {
                        assert(seq![k][0] == k);
                    }
                    if ks2.contains(p.0) && p.0 != k {
                        let q = choose|q: int| 0 <= q < ks2.len() && ks2[q] == p.0;
                        assert(ks[q] == p.0);
                    }
                    if ks.contains(p.0) {
                        let q = choose|q: int| 0 <= q < ks.len() && ks[q] == p.0;
                        assert(ks2[q] == p.0);
                    }
                }
                assert(h1 =~= holes_after(ix, ks2));
                assert(self@.indices =~= old(self)@.indices.update(0, IndexView { holes: holes_after(ix, ks2), ..ix }));
            }
        }
        (cols, out, freed)
    }

    /// Evicts the given keys from the index that `tag` fills, marking each as a hole under
    /// `tag`. Returns `None` if no index is filled by `tag`, else the index's key columns
    /// and the bytes of the evicted rows, saturated.
    pub fn evict_keys(&mut self, tag: &Tag, keys: &[Vec<DataType>]) -> (r: Option<(Vec<usize>, u64)>)
        requires
            old(self).wf(),
        ensures
            final(self).wf(),
            r is None <==> tag_index(old(self)@, tag.0) < 0,
            r is None ==> final(self)@ == old(self)@,
            r matches Some((cols, freed)) ==> {
                let i = tag_index(old(self)@, tag.0);
                let c = old(self)@.indices[i].columns;
                &&& cols@ == c
                &&& final(self)@.rows == strip_keys(old(self)@.rows, c, keys_view(keys@))
                &&& final(self)@.indices == old(self)@.indices.update(
                    i,
                    IndexView { holes: holes_with(old(self)@.indices[i].holes, keys_view(keys@), tag.0), ..old(self)@.indices[i] },
                )
                &&& freed == cap(evicted_size(old(self)@.rows, c, keys_view(keys@)))
            },
    {
        let i = match self.find_tag(tag) {
            Some(i) => i,
            None => {
                return None;
            },
        };
        let cols = self.state[i].columns().clone();
        let ghost c = cols@;
        let ghost ix = old(self)@.indices[i as int];
        let mut freed: u64 = 0;
        let mut j: usize = 0;
        proof {
            assert(holes_with(ix.holes, keys_view(keys@).take(0), tag.0) =~= ix.holes);
            assert(old(self)@.indices.update(i as int, IndexView { holes: ix.holes, ..ix }) =~= old(self)@.indices);
            assert(keys_view(keys@).take(0) =~= Seq::empty());
        }
        while j < keys.len()
            invariant
                self.wf(),
                j <= keys@.len(),
                i < old(self)@.indices.len(),
                c == old(self)@.indices[i as int].columns,
                cols@ == c,
                ix == old(self)@.indices[i as int],
                self@.indices.len() == old(self)@.indices.len(),
                self@.rows == strip_keys(old(self)@.rows, c, keys_view(keys@).take(j as int)),
                self@.indices == old(self)@.indices.update(
                    i as int,
                    IndexView { holes: holes_with(ix.holes, keys_view(keys@).take(j as int), tag.0), ..ix },
                ),
                freed == cap(evicted_size(old(self)@.rows, c, keys_view(keys@).take(j as int))),
            decreases keys@.len() - j,
        {
            let ghost ks = keys_view(keys@).take(j as int);
            let ghost ks2 = keys_view(keys@).take(j + 1);
            let ghost rows0 = self@.rows;
            let ghost k = values(keys@[j as int]@);
            let n = self.remove_key(i, &keys[j]);
            proof {
                assert(ks2.drop_last() =~= ks);
                assert(ks2.last() == k);
                lemma_evicted_size_nonneg(old(self)@.rows, c, ks);
                lemma_rows_size_nonneg(matching(rows0, c, k));
                crate::types::lemma_cap_add(evicted_size(old(self)@.rows, c, ks), rows_size(matching(rows0, c, k)));
            }
            freed = freed.saturating_add(n);
            self.add_hole_at(i, &keys[j], *tag);
            j += 1;
            proof {
                let h1 = holes_with(ix.holes, ks, tag.0).insert((k, tag.0));
                assert forall|p: (Seq<Value>, u32)| h1.contains(p) == holes_with(ix.holes, ks2, tag.0).contains(p) by {
                    if p.0 == k {
                        assert(ks2[ks.len() as int] == k);
                    }
                    if ks2.contains(p.0) && p.0 != k {
                        let q = choose|q: int| 0 <= q < ks2.len() && ks2[q] == p.0;
                        assert(ks[q] == p.0);
                    }
                    if ks.contains(p.0) {
                        let q = choose|q: int| 0 <= q < ks.len() && ks[q] == p.0;
                        assert(ks2[q] == p.0);
                    }
                }
                assert(h1 =~= holes_with(ix.holes, ks2, tag.0));
                assert(self@.indices =~= old(self)@.indices.update(i as int, IndexView { holes: holes_with(ix.holes, ks2, tag.0), ..ix }));
            }
        }
        proof {
            assert(keys_view(keys@).take(keys@.len() as int) =~= keys_view(keys@));
        }
        Some((cols, freed))
    }
}

} // verus!
