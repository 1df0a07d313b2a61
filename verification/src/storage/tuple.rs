use crate::catalog::schema::DataType;
use crate::catalog::schema::Schema;
use vstd::prelude::*;

verus! {

/// One typed value of a row; `None` inside is SQL NULL.
#[derive(Debug, Clone, Copy, PartialEq, Eq)]
pub enum ScalarValue {
    Boolean(Option<bool>),
    Int8(Option<i8>),
    Int16(Option<i16>),
    Int32(Option<i32>),
    Int64(Option<i64>),
}

/// How one key stands to another.
#[derive(Debug, Clone, Copy, PartialEq, Eq, Structural)]
pub enum KeyOrder {
    Less,
    Equal,
    Greater,
}

/// The slot of NULL in the order of one type: below every value.
pub open spec fn null_slot() -> int {
    -0x8000_0000_0000_0001
}

impl ScalarValue {
    pub open spec fn type_of(self) -> DataType {
        match self {
            ScalarValue::Boolean(_) => DataType::Boolean,
            ScalarValue::Int8(_) => DataType::Int8,
            ScalarValue::Int16(_) => DataType::Int16,
            ScalarValue::Int32(_) => DataType::Int32,
            ScalarValue::Int64(_) => DataType::Int64,
        }
    }

    /// Position of the value's type among the types.
    pub open spec fn type_rank(self) -> int {
        match self {
            ScalarValue::Boolean(_) => 0,
            ScalarValue::Int8(_) => 1,
            ScalarValue::Int16(_) => 2,
            ScalarValue::Int32(_) => 3,
            ScalarValue::Int64(_) => 4,
        }
    }

    /// Position of the value within its type: NULL first, then the values in
    /// their numeric order (`false` before `true`).
    pub open spec fn slot(self) -> int {
        match self {
            ScalarValue::Boolean(Some(b)) => if b { 1 } else { 0 },
            ScalarValue::Int8(Some(v)) => v as int,
            ScalarValue::Int16(Some(v)) => v as int,
            ScalarValue::Int32(Some(v)) => v as int,
            ScalarValue::Int64(Some(v)) => v as int,
            _ => null_slot(),
        }
    }

    /// The strict order on values: by type first, then by slot.
    pub open spec fn lt(self, other: ScalarValue) -> bool {
        self.type_rank() < other.type_rank() || (self.type_rank() == other.type_rank()
            && self.slot() < other.slot())
    }

    /// The NULL of a type.
    pub open spec fn null_of(data_type: DataType) -> ScalarValue {
        match data_type {
            DataType::Boolean => ScalarValue::Boolean(None),
            DataType::Int8 => ScalarValue::Int8(None),
            DataType::Int16 => ScalarValue::Int16(None),
            DataType::Int32 => ScalarValue::Int32(None),
            DataType::Int64 => ScalarValue::Int64(None),
        }
    }

    pub fn data_type(&self) -> (data_type: DataType)
        ensures
            data_type == self.type_of(),
    {
        match self {
            ScalarValue::Boolean(_) => DataType::Boolean,
            ScalarValue::Int8(_) => DataType::Int8,
            ScalarValue::Int16(_) => DataType::Int16,
            ScalarValue::Int32(_) => DataType::Int32,
            ScalarValue::Int64(_) => DataType::Int64,
        }
    }

    pub fn is_null(&self) -> (null: bool)
        ensures
            null == (self.slot() == null_slot()),
    {
        match self {
            ScalarValue::Boolean(v) => v.is_none(),
            ScalarValue::Int8(v) => v.is_none(),
            ScalarValue::Int16(v) => v.is_none(),
            ScalarValue::Int32(v) => v.is_none(),
            ScalarValue::Int64(v) => v.is_none(),
        }
    }

    pub fn null(data_type: DataType) -> (value: ScalarValue)
        ensures
            value == ScalarValue::null_of(data_type),
    {
        match data_type {
            DataType::Boolean => ScalarValue::Boolean(None),
            DataType::Int8 => ScalarValue::Int8(None),
            DataType::Int16 => ScalarValue::Int16(None),
            DataType::Int32 => ScalarValue::Int32(None),
            DataType::Int64 => ScalarValue::Int64(None),
        }
    }

    fn rank(&self) -> (rank: u8)
        ensures
            rank == self.type_rank(),
    {
        match self {
            ScalarValue::Boolean(_) => 0,
            ScalarValue::Int8(_) => 1,
            ScalarValue::Int16(_) => 2,
            ScalarValue::Int32(_) => 3,
            ScalarValue::Int64(_) => 4,
        }
    }

    fn position(&self) -> (position: i128)
        ensures
            position == self.slot(),
    {
        match self {
            ScalarValue::Boolean(Some(b)) => if *b { 1 } else { 0 },
            ScalarValue::Int8(Some(v)) => *v as i128,
            ScalarValue::Int16(Some(v)) => *v as i128,
            ScalarValue::Int32(Some(v)) => *v as i128,
            ScalarValue::Int64(Some(v)) => *v as i128,
            _ => -0x8000_0000_0000_0001,
        }
    }

    /// Compares two values in the order `lt`.
    pub fn order(&self, other: &ScalarValue) -> (order: KeyOrder)
        ensures
            order == KeyOrder::Less <==> self.lt(*other),
            order == KeyOrder::Equal <==> *self == *other,
            order == KeyOrder::Greater <==> other.lt(*self),
    {
        let own_rank: u8 = self.rank();
        let other_rank: u8 = other.rank();
        if own_rank < other_rank {
            KeyOrder::Less
        } else if own_rank > other_rank {
            KeyOrder::Greater
        } else {
            let own_place: i128 = self.position();
            let other_place: i128 = other.position();
            if own_place < other_place {
                KeyOrder::Less
            } else if own_place > other_place {
                KeyOrder::Greater
            } else {
                KeyOrder::Equal
            }
        }
    }
}

/// The lexicographic order on keys from column `i` on; a key that ends first
/// comes first.
pub open spec fn key_lt_from(a: Seq<ScalarValue>, b: Seq<ScalarValue>, i: int) -> bool
    decreases a.len() - i,
{
    if i < 0 || i >= b.len() {
        false
    } else if i >= a.len() {
        true
    } else if a[i] == b[i] {
        key_lt_from(a, b, i + 1)
    } else {
        a[i].lt(b[i])
    }
}

/// The strict order on keys: column by column.
pub open spec fn key_lt(a: Seq<ScalarValue>, b: Seq<ScalarValue>) -> bool {
    key_lt_from(a, b, 0)
}

pub open spec fn key_le(a: Seq<ScalarValue>, b: Seq<ScalarValue>) -> bool {
    a == b || key_lt(a, b)
}

/// Whether the values have the types of the columns, one for one.
pub open spec fn conforms_to(values: Seq<ScalarValue>, types: Seq<DataType>) -> bool {
    values.len() == types.len() && forall|i: int|
        0 <= i < values.len() ==> (#[trigger] values[i]).type_of() == types[i]
}

/// The key of all NULLs for the columns.
pub open spec fn null_key(types: Seq<DataType>) -> Seq<ScalarValue> {
    Seq::new(types.len(), |i: int| ScalarValue::null_of(types[i]))
}

proof fn lemma_lt_from_irreflexive(a: Seq<ScalarValue>, i: int)
    requires
        0 <= i,
    ensures
        !key_lt_from(a, a, i),
    decreases a.len() - i,
{
    if i < a.len() {
        lemma_lt_from_irreflexive(a, i + 1);
    }
}

proof fn lemma_lt_from_transitive(
    a: Seq<ScalarValue>,
    b: Seq<ScalarValue>,
    c: Seq<ScalarValue>,
    i: int,
)
    requires
        0 <= i,
        key_lt_from(a, b, i),
        key_lt_from(b, c, i),
    ensures
        key_lt_from(a, c, i),
    decreases a.len() - i,
{
    if i < a.len() && i < b.len() && i < c.len() {
        if a[i] == b[i] && b[i] == c[i] {
            lemma_lt_from_transitive(a, b, c, i + 1);
        }
    }
}

proof fn lemma_lt_from_total(a: Seq<ScalarValue>, b: Seq<ScalarValue>, i: int)
    requires
        0 <= i <= a.len(),
        i <= b.len(),
        forall|j: int| 0 <= j < i ==> a[j] == b[j],
    ensures
        key_lt_from(a, b, i) || key_lt_from(b, a, i) || a == b,
    decreases a.len() - i,
{
    if i < a.len() && i < b.len() {
        if a[i] == b[i] {
            lemma_lt_from_total(a, b, i + 1);
        }
    } else if i == a.len() && i == b.len() {
        assert(a =~= b);
    }
}

/// No key comes before itself.
pub proof fn lemma_key_lt_irreflexive(a: Seq<ScalarValue>)
    ensures
        !key_lt(a, a),
{
    lemma_lt_from_irreflexive(a, 0);
}

/// The order on keys is transitive.
pub proof fn lemma_key_lt_transitive(a: Seq<ScalarValue>, b: Seq<ScalarValue>, c: Seq<ScalarValue>)
    requires
        key_lt(a, b),
        key_lt(b, c),
    ensures
        key_lt(a, c),
{
    lemma_lt_from_transitive(a, b, c, 0);
}

/// Of two keys, one comes before the other or they are the same key.
pub proof fn lemma_key_lt_total(a: Seq<ScalarValue>, b: Seq<ScalarValue>)
    ensures
        key_lt(a, b) || key_lt(b, a) || a == b,
{
    lemma_lt_from_total(a, b, 0);
}

/// No two keys come before each other.
pub proof fn lemma_key_lt_asymmetric(a: Seq<ScalarValue>, b: Seq<ScalarValue>)
    requires
        key_lt(a, b),
    ensures
        !key_lt(b, a),
        a != b,
{
    lemma_key_lt_irreflexive(a);
    if key_lt(b, a) {
        lemma_key_lt_transitive(a, b, a);
    }
}

/// A row, or a key: typed values in column order.
#[derive(Debug, Clone, PartialEq, Eq)]
pub struct Tuple {
    pub data: Vec<ScalarValue>,
}

impl View for Tuple {
    type V = Seq<ScalarValue>;

    open spec fn view(&self) -> Seq<ScalarValue> {
        self.data@
    }
}

impl Tuple {
    /// A tuple of the given values.
    pub fn new(data: Vec<ScalarValue>) -> (tuple: Tuple)
        ensures
            tuple@ == data@,
    {
        Tuple { data }
    }

    /// The tuple of all NULLs for a schema: the key that stands in the first
    /// slot of an internal index page.
    pub fn empty(schema: &Schema) -> (tuple: Tuple)
        ensures
            tuple@ == null_key(schema.types()),
            conforms_to(tuple@, schema.types()),
    {
        let mut data: Vec<ScalarValue> = Vec::new();
        let n: usize = schema.column_count();
        let mut i: usize = 0;
        while i < n
            invariant
                i <= n,
                n == schema.types().len(),
                data@.len() == i,
                forall|j: int| 0 <= j < i ==> data@[j] == ScalarValue::null_of(schema.types()[j]),
            decreases n - i,
        {
            data.push(ScalarValue::null(schema.column_type(i)));
            i += 1;
        }
        assert(data@ =~= null_key(schema.types()));
        Tuple { data }
    }

    /// A copy of the tuple.
    pub fn duplicate(&self) -> (copy: Tuple)
        ensures
            copy@ == self@,
    {
        let mut data: Vec<ScalarValue> = Vec::new();
        let mut i: usize = 0;
        while i < self.data.len()
            invariant
                i <= self.data@.len(),
                data@ == self.data@.subrange(0, i as int),
            decreases self.data@.len() - i,
        {
            data.push(self.data[i]);
            assert(data@ =~= self.data@.subrange(0, i + 1));
            i += 1;
        }
        assert(data@ =~= self.data@);
        Tuple { data }
    }

    /// Whether the tuple has the column types of the schema.
    pub fn conforms(&self, schema: &Schema) -> (ok: bool)
        ensures
            ok == conforms_to(self@, schema.types()),
    {
        if self.data.len() != schema.column_count() {
            return false;
        }
        let mut i: usize = 0;
        while i < self.data.len()
            invariant
                i <= self.data@.len(),
                self.data@.len() == schema.types().len(),
                forall|j: int| 0 <= j < i ==> (#[trigger] self.data@[j]).type_of() == schema.types()[j],
            decreases self.data@.len() - i,
        {
            let same: bool = match (self.data[i].data_type(), schema.column_type(i)) {
                (DataType::Boolean, DataType::Boolean) => true,
                (DataType::Int8, DataType::Int8) => true,
                (DataType::Int16, DataType::Int16) => true,
                (DataType::Int32, DataType::Int32) => true,
                (DataType::Int64, DataType::Int64) => true,
                _ => false,
            };
            if !same {
                return false;
            }
            i += 1;
        }
        true
    }

    /// Compares two keys column by column.
    pub fn key_order(&self, other: &Tuple) -> (order: KeyOrder)
        ensures
            order == KeyOrder::Less <==> key_lt(self@, other@),
            order == KeyOrder::Equal <==> self@ == other@,
            order == KeyOrder::Greater <==> key_lt(other@, self@),
    {
        let mut i: usize = 0;
        proof {
            lemma_key_lt_total(self@, other@);
            if key_lt(self@, other@) {
                lemma_key_lt_asymmetric(self@, other@);
            }
            if key_lt(other@, self@) {
                lemma_key_lt_asymmetric(other@, self@);
            }
        }
        while i < self.data.len() && i < other.data.len()
            invariant
                i <= self.data@.len(),
                i <= other.data@.len(),
                key_lt(self@, other@) == key_lt_from(self@, other@, i as int),
                key_lt(other@, self@) == key_lt_from(other@, self@, i as int),
            decreases self.data@.len() - i,
        {
            match self.data[i].order(&other.data[i]) {
                KeyOrder::Less => {
                    return KeyOrder::Less;
                },
                KeyOrder::Greater => {
                    return KeyOrder::Greater;
                },
                KeyOrder::Equal => {},
            }
            i += 1;
        }
        if i < other.data.len() {
            KeyOrder::Less
        } else if i < self.data.len() {
            KeyOrder::Greater
        } else {
            KeyOrder::Equal
        }
    }
}

impl From<bool> for ScalarValue {
    fn from(value: bool) -> (v: ScalarValue) {
        ScalarValue::Boolean(Some(value))
    }
}

impl vstd::std_specs::convert::FromSpecImpl<bool> for ScalarValue {
    open spec fn obeys_from_spec() -> bool {
        true
    }

    open spec fn from_spec(value: bool) -> ScalarValue {
        ScalarValue::Boolean(Some(value))
    }
}

impl From<i8> for ScalarValue {
    fn from(value: i8) -> (v: ScalarValue) {
        ScalarValue::Int8(Some(value))
    }
}

impl vstd::std_specs::convert::FromSpecImpl<i8> for ScalarValue {
    open spec fn obeys_from_spec() -> bool {
        true
    }

    open spec fn from_spec(value: i8) -> ScalarValue {
        ScalarValue::Int8(Some(value))
    }
}

impl From<i16> for ScalarValue {
    fn from(value: i16) -> (v: ScalarValue) {
        ScalarValue::Int16(Some(value))
    }
}

impl vstd::std_specs::convert::FromSpecImpl<i16> for ScalarValue {
    open spec fn obeys_from_spec() -> bool {
        true
    }

    open spec fn from_spec(value: i16) -> ScalarValue {
        ScalarValue::Int16(Some(value))
    }
}

impl From<i32> for ScalarValue {
    fn from(value: i32) -> (v: ScalarValue) {
        ScalarValue::Int32(Some(value))
    }
}

impl vstd::std_specs::convert::FromSpecImpl<i32> for ScalarValue {
    open spec fn obeys_from_spec() -> bool {
        true
    }

    open spec fn from_spec(value: i32) -> ScalarValue {
        ScalarValue::Int32(Some(value))
    }
}

impl From<i64> for ScalarValue {
    fn from(value: i64) -> (v: ScalarValue) {
        ScalarValue::Int64(Some(value))
    }
}

impl vstd::std_specs::convert::FromSpecImpl<i64> for ScalarValue {
    open spec fn obeys_from_spec() -> bool {
        true
    }

    open spec fn from_spec(value: i64) -> ScalarValue {
        ScalarValue::Int64(Some(value))
    }
}

} // verus!
