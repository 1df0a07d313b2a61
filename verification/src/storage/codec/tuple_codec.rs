use crate::catalog::schema::DataType;
use crate::catalog::schema::Schema;
use crate::error::BustubxError;
use crate::storage::codec::wire::get_u64;
use crate::storage::codec::wire::lemma_region_of_region;
use crate::storage::codec::wire::region;
use crate::storage::codec::wire::u64_at;
use crate::storage::tuple::conforms_to;
use crate::storage::tuple::null_slot;
use crate::storage::tuple::ScalarValue;
use crate::storage::tuple::Tuple;
use vstd::bytes::*;
use vstd::prelude::*;

verus! {

/// Bytes that one value takes on a page: a presence flag and eight bytes.
pub const VALUE_SIZE: usize = 9;

/// The distance by which a value is shifted to be stored without a sign.
pub open spec fn bias() -> int {
    0x8000_0000_0000_0000
}

/// The eight bytes' worth of a value: its slot shifted to be non-negative, and
/// zero for NULL.
pub open spec fn raw_of(v: ScalarValue) -> u64 {
    if v.slot() == null_slot() {
        0
    } else {
        (v.slot() + bias()) as u64
    }
}

/// The nine bytes of a value.
pub open spec fn value_bytes(v: ScalarValue) -> Seq<u8> {
    seq![if v.slot() == null_slot() { 0u8 } else { 1u8 }] + spec_u64_to_le_bytes(raw_of(v))
}

/// The value of a type that a stored number stands for, if any.
pub open spec fn value_of_raw(data_type: DataType, raw: u64) -> Option<ScalarValue> {
    let x = raw - bias();
    match data_type {
        DataType::Boolean => if x == 0 {
            Some(ScalarValue::Boolean(Some(false)))
        } else if x == 1 {
            Some(ScalarValue::Boolean(Some(true)))
        } else {
            None
        },
        DataType::Int8 => if -0x80 <= x <= 0x7f {
            Some(ScalarValue::Int8(Some(x as i8)))
        } else {
            None
        },
        DataType::Int16 => if -0x8000 <= x <= 0x7fff {
            Some(ScalarValue::Int16(Some(x as i16)))
        } else {
            None
        },
        DataType::Int32 => if -0x8000_0000 <= x <= 0x7fff_ffff {
            Some(ScalarValue::Int32(Some(x as i32)))
        } else {
            None
        },
        DataType::Int64 => Some(ScalarValue::Int64(Some(x as i64))),
    }
}

/// The value of a type that nine bytes hold, if they hold one.
pub open spec fn value_from(data_type: DataType, s: Seq<u8>) -> Option<ScalarValue> {
    if s.len() != 9 {
        None
    } else if s[0] == 0 {
        Some(ScalarValue::null_of(data_type))
    } else if s[0] == 1 {
        value_of_raw(data_type, u64_at(s, 1))
    } else {
        None
    }
}

/// Bytes that a key of these column types takes.
pub open spec fn key_size(types: Seq<DataType>) -> int {
    9 * (types.len() as int)
}

/// The bytes of a key: its values one after the other.
pub open spec fn key_bytes(key: Seq<ScalarValue>) -> Seq<u8> {
    Seq::new((9 * key.len()) as nat, |i: int| value_bytes(key[i / 9])[i % 9])
}

/// Whether column `c` of a stored key can be read.
pub open spec fn column_ok(types: Seq<DataType>, s: Seq<u8>, c: int) -> bool {
    value_from(types[c], region(s, 9 * c, 9)) is Some
}

/// The key of these column types that the bytes hold, if they hold one.
pub open spec fn key_from(types: Seq<DataType>, s: Seq<u8>) -> Option<Seq<ScalarValue>> {
    if s.len() != 9 * types.len() {
        None
    } else if forall|c: int| 0 <= c < types.len() ==> column_ok(types, s, c) {
        Some(Seq::new(types.len(), |c: int| value_from(types[c], region(s, 9 * c, 9)).unwrap()))
    } else {
        None
    }
}

/// A stored value reads back as itself.
pub proof fn lemma_value_round_trip(v: ScalarValue)
    ensures
        value_bytes(v).len() == 9,
        value_from(v.type_of(), value_bytes(v)) == Some(v),
{
    lemma_auto_spec_u64_to_from_le_bytes();
    let w = spec_u64_to_le_bytes(raw_of(v));
    let s = value_bytes(v);
    assert(s.len() == 9);
    assert(region(s, 1, 8) =~= w);
    assert(u64_at(s, 1) == raw_of(v));
}

/// A stored key reads back as itself under the column types it has.
pub proof fn lemma_key_round_trip(key: Seq<ScalarValue>, types: Seq<DataType>)
    requires
        conforms_to(key, types),
    ensures
        key_bytes(key).len() == key_size(types),
        key_from(types, key_bytes(key)) == Some(key),
{
    let s = key_bytes(key);
    assert forall|c: int| 0 <= c < types.len() implies column_ok(types, s, c) by {
        lemma_value_round_trip(key[c]);
        assert(region(s, 9 * c, 9) =~= value_bytes(key[c]));
        assert(key[c].type_of() == types[c]);
    }
    let decoded = key_from(types, s).unwrap();
    assert forall|c: int| 0 <= c < key.len() implies decoded[c] == key[c] by {
        lemma_value_round_trip(key[c]);
        assert(region(s, 9 * c, 9) =~= value_bytes(key[c]));
        assert(key[c].type_of() == types[c]);
    }
    assert(decoded =~= key);
}

/// A key that the bytes hold has the column types.
pub proof fn lemma_key_from_conforms(types: Seq<DataType>, s: Seq<u8>)
    requires
        key_from(types, s) is Some,
    ensures
        conforms_to(key_from(types, s)->Some_0, types),
{
    let key = key_from(types, s)->Some_0;
    assert forall|c: int| 0 <= c < key.len() implies (#[trigger] key[c]).type_of() == types[c] by {
        assert(column_ok(types, s, c));
    }
}

pub struct TupleCodec;

impl TupleCodec {
    /// The nine bytes of one value.
    pub fn encode_value(v: &ScalarValue) -> (out: Vec<u8>)
        ensures
            out@ == value_bytes(*v),
            out@.len() == 9,
    {
        let (flag, raw): (u8, u64) = match v {
            ScalarValue::Boolean(Some(b)) => (1u8, if *b { 0x8000_0000_0000_0001u64 } else { 0x8000_0000_0000_0000u64 }),
            ScalarValue::Int8(Some(x)) => (1u8, (*x as i128 + 0x8000_0000_0000_0000i128) as u64),
            ScalarValue::Int16(Some(x)) => (1u8, (*x as i128 + 0x8000_0000_0000_0000i128) as u64),
            ScalarValue::Int32(Some(x)) => (1u8, (*x as i128 + 0x8000_0000_0000_0000i128) as u64),
            ScalarValue::Int64(Some(x)) => (1u8, (*x as i128 + 0x8000_0000_0000_0000i128) as u64),
            _ => (0u8, 0u64),
        };
        let mut out: Vec<u8> = Vec::new();
        out.push(flag);
        let mut word = u64_to_le_bytes(raw);
        out.append(&mut word);
        proof {
            lemma_auto_spec_u64_to_from_le_bytes();
            assert(out@ =~= value_bytes(*v));
        }
        out
    }

    /// Reads one value of the given type from nine bytes at `pos`.
    pub fn decode_value(data_type: DataType, buf: &Vec<u8>, pos: usize) -> (res: Result<ScalarValue, BustubxError>)
        requires
            pos + 9 <= buf.len(),
        ensures
            match value_from(data_type, region(buf@, pos as int, 9)) {
                Some(v) => res == Ok::<ScalarValue, BustubxError>(v),
                None => res == Err::<ScalarValue, BustubxError>(BustubxError::Corrupt),
            },
    {
        let flag: u8 = buf[pos];
        let raw: u64 = get_u64(buf, pos + 1);
        proof {
            lemma_region_of_region(buf@, pos as int, 9, 1, 8);
        }
        if flag == 0 {
            return Ok(ScalarValue::null(data_type));
        }
        if flag != 1 {
            return Err(BustubxError::Corrupt);
        }
        let x: i128 = raw as i128 - 0x8000_0000_0000_0000i128;
        match data_type {
            DataType::Boolean => {
                if x == 0 {
                    Ok(ScalarValue::Boolean(Some(false)))
                } else if x == 1 {
                    Ok(ScalarValue::Boolean(Some(true)))
                } else {
                    Err(BustubxError::Corrupt)
                }
            },
            DataType::Int8 => {
                if -0x80 <= x && x <= 0x7f {
                    Ok(ScalarValue::Int8(Some(x as i8)))
                } else {
                    Err(BustubxError::Corrupt)
                }
            },
            DataType::Int16 => {
                if -0x8000 <= x && x <= 0x7fff {
                    Ok(ScalarValue::Int16(Some(x as i16)))
                } else {
                    Err(BustubxError::Corrupt)
                }
            },
            DataType::Int32 => {
                if -0x8000_0000 <= x && x <= 0x7fff_ffff {
                    Ok(ScalarValue::Int32(Some(x as i32)))
                } else {
                    Err(BustubxError::Corrupt)
                }
            },
            DataType::Int64 => Ok(ScalarValue::Int64(Some(x as i64))),
        }
    }

    /// The bytes of a tuple: nine for each value, in column order.
    pub fn encode(tuple: &Tuple) -> (out: Vec<u8>)
        ensures
            out@ == key_bytes(tuple@),
            out@.len() == 9 * tuple@.len(),
    {
        let mut out: Vec<u8> = Vec::new();
        let mut c: usize = 0;
        while c < tuple.data.len()
            invariant
                c <= tuple@.len(),
                out@.len() == 9 * c,
                out@ == key_bytes(tuple@).subrange(0, 9 * c),
            decreases tuple@.len() - c,
        {
            let mut bytes = TupleCodec::encode_value(&tuple.data[c]);
            out.append(&mut bytes);
            assert(out@ =~= key_bytes(tuple@).subrange(0, 9 * (c + 1)));
            c += 1;
        }
        assert(out@ =~= key_bytes(tuple@));
        out
    }

    /// Reads a tuple of the schema from the bytes of `buf` that start at `pos`.
    pub fn decode(schema: &Schema, buf: &Vec<u8>, pos: usize) -> (res: Result<Tuple, BustubxError>)
        requires
            pos + 9 * schema.types().len() <= buf.len(),
        ensures
            match key_from(schema.types(), region(buf@, pos as int, key_size(schema.types()))) {
                Some(key) => res is Ok && res->Ok_0@ == key && conforms_to(key, schema.types()),
                None => res == Err::<Tuple, BustubxError>(BustubxError::Corrupt),
            },
    {
        let n: usize = schema.column_count();
        let ghost types = schema.types();
        let ghost s = region(buf@, pos as int, 9 * n);
        let mut data: Vec<ScalarValue> = Vec::new();
        let mut c: usize = 0;
        while c < n
            invariant
                c <= n,
                n == types.len(),
                types == schema.types(),
                pos + 9 * n <= buf.len(),
                s == region(buf@, pos as int, 9 * n),
                data@.len() == c,
                forall|j: int| 0 <= j < c ==> column_ok(types, s, j),
                forall|j: int| 0 <= j < c ==> data@[j] == value_from(types[j], region(s, 9 * j, 9)).unwrap(),
            decreases n - c,
        {
            proof {
                lemma_region_of_region(buf@, pos as int, 9 * n, 9 * c, 9);
            }
            match TupleCodec::decode_value(schema.column_type(c), buf, pos + 9 * c) {
                Ok(v) => {
                    data.push(v);
                },
                Err(e) => {
                    assert(!column_ok(types, s, c as int));
                    return Err(BustubxError::Corrupt);
                },
            }
            c += 1;
        }
        proof {
            let key = key_from(types, s).unwrap();
            assert(data@ =~= key);
            assert forall|j: int| 0 <= j < key.len() implies (#[trigger] key[j]).type_of() == types[j] by {
                assert(column_ok(types, s, j));
            }
        }
        Ok(Tuple { data })
    }
}

} // verus!
