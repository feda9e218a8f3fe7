use vstd::prelude::*;

verus! {

/// Identifies a replay path that may fill the holes of a partial index.
#[derive(Clone, Copy, PartialEq, Eq, Structural, PartialOrd, Ord, Hash, Debug)]
pub struct Tag(pub u32);

impl Tag {
    pub fn id(&self) -> (r: u32)
        ensures
            r == self.0,
    {
        self.0
    }
}

/// The mathematical value of one column of a record.
pub enum Value {
    Null,
    Int(int),
    Text(Seq<char>),
}

/// One column value of a record.
#[derive(Clone, Debug)]
pub enum DataType {
    Null,
    Int(i64),
    Text(String),
}

impl View for DataType {
    type V = Value;

    open spec fn view(&self) -> Value {
        match self {
            DataType::Null => Value::Null,
            DataType::Int(i) => Value::Int(*i as int),
            DataType::Text(s) => Value::Text(s@),
        }
    }
}

/// The bytes accounted to one value: a fixed part, plus one per character of text.
pub open spec fn value_size(v: Value) -> int {
    match v {
        Value::Text(s) => 16 + s.len() as int,
        _ => 16,
    }
}

/// `x` saturated at `u64::MAX`.
pub open spec fn cap(x: int) -> u64 {
    if x > u64::MAX as int {
        u64::MAX
    } else if x < 0 {
        0
    } else {
        x as u64
    }
}

impl DataType {
    /// Whether two values are equal.
    pub fn same(&self, other: &DataType) -> (r: bool)
        ensures
            r == (self@ == other@),
    {
        match (self, other) {
            (DataType::Null, DataType::Null) => true,
            (DataType::Int(a), DataType::Int(b)) => *a == *b,
            (DataType::Text(a), DataType::Text(b)) => a.eq(b),
            _ => false,
        }
    }

    /// A copy with the same value.
    pub fn duplicate(&self) -> (r: DataType)
        ensures
            r@ == self@,
    {
        match self {
            DataType::Null => DataType::Null,
            DataType::Int(i) => DataType::Int(*i),
            DataType::Text(s) => DataType::Text(s.clone()),
        }
    }

    /// Bytes accounted to this value, saturated.
    pub fn deep_size_of(&self) -> (r: u64)
        ensures
            r == cap(value_size(self@)),
    {
        match self {
            DataType::Text(s) => {
                let n = s.as_str().unicode_len();
                (n as u64).saturating_add(16)
            },
            _ => 16,
        }
    }
}

impl PartialEq for DataType {
    fn eq(&self, other: &DataType) -> (r: bool) {
        self.same(other)
    }
}

impl vstd::std_specs::cmp::PartialEqSpecImpl for DataType {
    open spec fn obeys_eq_spec() -> bool {
        true
    }

    open spec fn eq_spec(&self, other: &DataType) -> bool {
        self@ == other@
    }
}


/// The values of a sequence of columns.
pub open spec fn values(v: Seq<DataType>) -> Seq<Value> {
    v.map_values(|d: DataType| d@)
}

/// The bytes accounted to a sequence of values.
pub open spec fn sizes_sum(s: Seq<Value>) -> int
    decreases s.len(),
{
    if s.len() == 0 {
        0
    } else {
        sizes_sum(s.drop_last()) + value_size(s.last())
    }
}

/// The bytes accounted to a row: its header and its values.
pub open spec fn row_size(s: Seq<Value>) -> int {
    24 + sizes_sum(s)
}

/// The key of `row` under the key columns `cols`.
pub open spec fn project(row: Seq<Value>, cols: Seq<usize>) -> Seq<Value> {
    Seq::new(cols.len(), |i: int| row[cols[i] as int])
}

/// Whether every column of `cols` lies within `row`.
pub open spec fn covers(row: Seq<Value>, cols: Seq<usize>) -> bool {
    forall|i: int| 0 <= i < cols.len() ==> (#[trigger] cols[i]) < row.len()
}

pub proof fn lemma_sizes_sum_nonneg(s: Seq<Value>)
    ensures
        sizes_sum(s) >= 0,
    decreases s.len(),
{
    if s.len() > 0 {
        lemma_sizes_sum_nonneg(s.drop_last());
    }
}

pub proof fn lemma_cap_add(a: int, b: int)
    requires
        a >= 0,
        b >= 0,
    ensures
        cap(cap(a) as int + cap(b) as int) == cap(a + b),
{
}

/// Whether two sequences of columns hold equal values.
pub fn same_values(a: &Vec<DataType>, b: &Vec<DataType>) -> (r: bool)
    ensures
        r == (values(a@) == values(b@)),
{
    if a.len() != b.len() {
        proof {
            assert(values(a@).len() != values(b@).len());
        }
        return false;
    }
    let mut i: usize = 0;
    while i < a.len()
        invariant
            a.len() == b.len(),
            i <= a.len(),
            forall|j: int| 0 <= j < i ==> a@[j]@ == b@[j]@,
        decreases a.len() - i,
    {
        if !a[i].same(&b[i]) {
            proof {
                assert(values(a@)[i as int] != values(b@)[i as int]);
            }
            return false;
        }
        i += 1;
    }
    proof {
        assert(values(a@) =~= values(b@));
    }
    true
}

/// A copy of a sequence of columns, with the same values.
pub fn copy_values(a: &[DataType]) -> (r: Vec<DataType>)
    ensures
        values(r@) == values(a@),
{
    let mut r: Vec<DataType> = Vec::new();
    let mut i: usize = 0;
    while i < a.len()
        invariant
            i <= a.len(),
            r@.len() == i,
            forall|j: int| 0 <= j < i ==> r@[j]@ == a@[j]@,
        decreases a.len() - i,
    {
        r.push(a[i].duplicate());
        i += 1;
    }
    proof {
        assert(values(r@) =~= values(a@));
    }
    r
}

/// The key of `row` under `cols`, copied out of it.
pub fn project_values(row: &Vec<DataType>, cols: &Vec<usize>) -> (r: Vec<DataType>)
    requires
        covers(values(row@), cols@),
    ensures
        values(r@) == project(values(row@), cols@),
{
    let mut r: Vec<DataType> = Vec::new();
    let mut i: usize = 0;
    while i < cols.len()
        invariant
            i <= cols.len(),
            covers(values(row@), cols@),
            r@.len() == i,
            forall|j: int| 0 <= j < i ==> r@[j]@ == row@[cols@[j] as int]@,
        decreases cols.len() - i,
    {
        let c = cols[i];
        assert(cols@[i as int] < values(row@).len());
        r.push(row[c].duplicate());
        i += 1;
    }
    proof {
        assert(values(r@) =~= project(values(row@), cols@));
    }
    r
}

/// One physical record: an ordered sequence of column values.
#[derive(Clone, Debug)]
pub struct Row(pub Vec<DataType>);

impl View for Row {
    type V = Seq<Value>;

    open spec fn view(&self) -> Seq<Value> {
        values(self.0@)
    }
}

impl Row {
    /// The row's columns.
    pub fn columns(&self) -> (r: &Vec<DataType>)
        ensures
            values(r@) == self@,
    {
        &self.0
    }

    /// Bytes accounted to the row and its values, saturated.
    pub fn deep_size_of(&self) -> (r: u64)
        ensures
            r == cap(row_size(self@)),
    {
        let v = &self.0;
        let mut acc: u64 = 24;
        let mut i: usize = 0;
        while i < v.len()
            invariant
                i <= v.len(),
                acc == cap(24 + sizes_sum(values(v@).take(i as int))),
            decreases v.len() - i,
        {
            let n = v[i].deep_size_of();
            proof {
                let s = values(v@);
                assert(s.take(i + 1).drop_last() =~= s.take(i as int));
                lemma_sizes_sum_nonneg(s.take(i as int));
                lemma_cap_add(24 + sizes_sum(s.take(i as int)), value_size(s[i as int]));
            }
            acc = acc.saturating_add(n);
            i += 1;
        }
        proof {
            assert(values(v@).take(v.len() as int) =~= values(v@));
        }
        acc
    }
}

/// What a record of a batch asks for.
pub enum Change {
    Insert(Seq<Value>),
    Delete(Seq<Value>),
}

/// One entry of a batch: a row to insert or to delete.
#[derive(Clone, Debug)]
pub enum Record {
    Positive(Vec<DataType>),
    Negative(Vec<DataType>),
}

/// A batch of records.
pub type Records = Vec<Record>;

impl View for Record {
    type V = Change;

    open spec fn view(&self) -> Change {
        match self {
            Record::Positive(v) => Change::Insert(values(v@)),
            Record::Negative(v) => Change::Delete(values(v@)),
        }
    }
}

/// What a batch of records asks for, in order.
pub open spec fn changes(rs: Seq<Record>) -> Seq<Change> {
    rs.map_values(|r: Record| r@)
}

/// The row that a change carries.
pub open spec fn change_row(c: Change) -> Seq<Value> {
    match c {
        Change::Insert(r) => r,
        Change::Delete(r) => r,
    }
}

impl Record {
    /// The row the record carries.
    pub fn row(&self) -> (r: &Vec<DataType>)
        ensures
            values(r@) == change_row(self@),
    {
        match self {
            Record::Positive(v) => v,
            Record::Negative(v) => v,
        }
    }

    /// A copy of the record.
    pub fn duplicate(&self) -> (r: Record)
        ensures
            r@ == self@,
    {
        match self {
            Record::Positive(v) => Record::Positive(copy_values(v)),
            Record::Negative(v) => Record::Negative(copy_values(v)),
        }
    }

    /// Whether the record inserts its row.
    pub fn is_positive(&self) -> (r: bool)
        ensures
            r == (self@ is Insert),
    {
        match self {
            Record::Positive(_) => true,
            Record::Negative(_) => false,
        }
    }
}


/// A composite key of one to six columns.
#[derive(Debug)]
pub enum KeyType {
    Single(DataType),
    Double((DataType, DataType)),
    Tri((DataType, DataType, DataType)),
    Quad((DataType, DataType, DataType, DataType)),
    Quin((DataType, DataType, DataType, DataType, DataType)),
    Sex((DataType, DataType, DataType, DataType, DataType, DataType)),
}

impl View for KeyType {
    type V = Seq<Value>;

    open spec fn view(&self) -> Seq<Value> {
        match self {
            KeyType::Single(a) => seq![a@],
            KeyType::Double((a, b)) => seq![a@, b@],
            KeyType::Tri((a, b, c)) => seq![a@, b@, c@],
            KeyType::Quad((a, b, c, d)) => seq![a@, b@, c@, d@],
            KeyType::Quin((a, b, c, d, e)) => seq![a@, b@, c@, d@, e@],
            KeyType::Sex((a, b, c, d, e, f)) => seq![a@, b@, c@, d@, e@, f@],
        }
    }
}

/// The number of columns a key has, by its variant.
pub open spec fn arity(k: KeyType) -> nat {
    match k {
        KeyType::Single(_) => 1,
        KeyType::Double(_) => 2,
        KeyType::Tri(_) => 3,
        KeyType::Quad(_) => 4,
        KeyType::Quin(_) => 5,
        KeyType::Sex(_) => 6,
    }
}

impl KeyType {
    /// The key made of the given values, in order; `None` unless there are one to six.
    pub fn from(other: &[DataType]) -> (r: Option<KeyType>)
        ensures
            r is Some <==> 1 <= other@.len() <= 6,
            r matches Some(k) ==> k@ == values(other@) && arity(k) == other@.len(),
    {
        let n = other.len();
        let r = if n == 1 {
            Some(KeyType::Single(other[0].duplicate()))
        } else if n == 2 {
            Some(KeyType::Double((other[0].duplicate(), other[1].duplicate())))
        } else if n == 3 {
            Some(KeyType::Tri((other[0].duplicate(), other[1].duplicate(), other[2].duplicate())))
        } else if n == 4 {
            Some(
                KeyType::Quad(
                    (
                        other[0].duplicate(),
                        other[1].duplicate(),
                        other[2].duplicate(),
                        other[3].duplicate(),
                    ),
                ),
            )
        } else if n == 5 {
            Some(
                KeyType::Quin(
                    (
                        other[0].duplicate(),
                        other[1].duplicate(),
                        other[2].duplicate(),
                        other[3].duplicate(),
                        other[4].duplicate(),
                    ),
                ),
            )
        } else if n == 6 {
            Some(
                KeyType::Sex(
                    (
                        other[0].duplicate(),
                        other[1].duplicate(),
                        other[2].duplicate(),
                        other[3].duplicate(),
                        other[4].duplicate(),
                        other[5].duplicate(),
                    ),
                ),
            )
        } else {
            None
        };
        proof {
            if r is Some {
                assert(r->Some_0@ =~= values(other@));
            }
        }
        r
    }

    /// The key's values, in order.
    pub fn values(&self) -> (r: Vec<DataType>)
        ensures
            values(r@) == self@,
    {
        let r = match self {
            KeyType::Single(a) => vec![a.duplicate()],
            KeyType::Double((a, b)) => vec![a.duplicate(), b.duplicate()],
            KeyType::Tri((a, b, c)) => vec![a.duplicate(), b.duplicate(), c.duplicate()],
            KeyType::Quad((a, b, c, d)) => vec![a.duplicate(), b.duplicate(), c.duplicate(), d.duplicate()],
            KeyType::Quin((a, b, c, d, e)) => vec![
                a.duplicate(),
                b.duplicate(),
                c.duplicate(),
                d.duplicate(),
                e.duplicate(),
            ],
            KeyType::Sex((a, b, c, d, e, f)) => vec![
                a.duplicate(),
                b.duplicate(),
                c.duplicate(),
                d.duplicate(),
                e.duplicate(),
                f.duplicate(),
            ],
        };
        proof {
            assert(values(r@) =~= self@);
        }
        r
    }
}

} // verus!
