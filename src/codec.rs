use vstd::prelude::*;
use vstd::bytes::{spec_u32_from_le_bytes, spec_u32_to_le_bytes, u32_from_le_bytes, u32_to_le_bytes};
use vstd::slice::slice_to_vec;

verus! {

/// One record of a batch or of a reply: a key, its per-key version and its value.
/// On a client's write the version is zero; the server assigns versions.
#[derive(Clone)]
pub struct KeyValue {
    pub key: usize,
    pub version: u32,
    pub value: Vec<u8>,
}

/// Why a batch could not be decoded.
#[derive(Clone, Copy, Debug, PartialEq, Eq)]
pub enum CodecError {
    /// The buffer ends before a declared field does.
    TooShort,
    /// Bytes remain after the declared number of records.
    TrailingBytes,
}

/// The little-endian `u32` held by the four bytes of `data` at `at`.
pub open spec fn u32_at(data: Seq<u8>, at: int) -> nat {
    spec_u32_from_le_bytes(data.subrange(at, at + 4)) as nat
}

/// A client's record as (key, value).
pub open spec fn record_of(kv: KeyValue) -> (usize, Seq<u8>) {
    (kv.key, kv.value@)
}

/// The (key, value) records of a sequence of `KeyValue`s.
pub open spec fn records_of(v: Seq<KeyValue>) -> Seq<(usize, Seq<u8>)> {
    v.map_values(|kv: KeyValue| record_of(kv))
}

/// `count` records (key, value length, value) that fill `rest` exactly.
pub open spec fn parse_records(rest: Seq<u8>, count: nat) -> Option<Seq<(usize, Seq<u8>)>>
    decreases count,
{
    if count == 0 {
        if rest.len() == 0 {
            Some(Seq::empty())
        } else {
            None
        }
    } else if rest.len() < 8 {
        None
    } else {
        let key = u32_at(rest, 0);
        let len: int = u32_at(rest, 4) as int;
        if rest.len() < 8 + len {
            None
        } else {
            match parse_records(rest.subrange(8 + len, rest.len() as int), (count - 1) as nat) {
                Some(tail) => Some(seq![(key as usize, rest.subrange(8, 8 + len))] + tail),
                None => None,
            }
        }
    }
}

/// The records of a batch: a little-endian count, then that many records and nothing else.
pub open spec fn batch_records(data: Seq<u8>) -> Option<Seq<(usize, Seq<u8>)>> {
    if data.len() < 4 {
        None
    } else {
        parse_records(data.subrange(4, data.len() as int), u32_at(data, 0))
    }
}

/// `p` put in front of the records in `o`, if there are any.
pub open spec fn prefixed(p: Seq<(usize, Seq<u8>)>, o: Option<Seq<(usize, Seq<u8>)>>) -> Option<
    Seq<(usize, Seq<u8>)>,
> {
    match o {
        Some(t) => Some(p + t),
        None => None,
    }
}

/// The reply encoding of one record: version, key, value length (all little-endian), value.
pub open spec fn record_bytes(version: u32, key: nat, value: Seq<u8>) -> Seq<u8> {
    spec_u32_to_le_bytes(version) + spec_u32_to_le_bytes(key as u32) + spec_u32_to_le_bytes(
        value.len() as u32,
    ) + value
}

/// Reads the little-endian `u32` at `at`.
pub fn read_u32(data: &[u8], at: usize) -> (r: u32)
    requires
        at + 4 <= data.len(),
    ensures
        r as nat == u32_at(data@, at as int),
{
    u32_from_le_bytes(&data[at..at + 4])
}

impl KeyValue {
    /// Decodes a batch of records; each comes out with version zero.
    pub fn from(data: &[u8]) -> (r: Result<Vec<KeyValue>, CodecError>)
        ensures
            r is Ok <==> batch_records(data@) is Some,
            r matches Ok(v) ==> {
                &&& batch_records(data@) == Some(records_of(v@))
                &&& forall|i: int|
                    0 <= i < v@.len() ==> {
                        &&& (#[trigger] v@[i]).version == 0
                        &&& v@[i].key <= u32::MAX
                        &&& v@[i].value@.len() <= u32::MAX
                    }
            },
    {
        let l = data.len();
        if l < 4 {
            return Err(CodecError::TooShort);
        }
        let mut length = read_u32(data, 0);
        let mut idx: usize = 4;
        let mut result: Vec<KeyValue> = Vec::new();
        while length > 0
            invariant
                l == data@.len(),
                4 <= idx <= l,
                batch_records(data@) == prefixed(
                    records_of(result@),
                    parse_records(data@.subrange(idx as int, l as int), length as nat),
                ),
                forall|i: int|
                    0 <= i < result@.len() ==> {
                        &&& (#[trigger] result@[i]).version == 0
                        &&& result@[i].key <= u32::MAX
                        &&& result@[i].value@.len() <= u32::MAX
                    },
            decreases length,
        {
            let ghost rest = data@.subrange(idx as int, l as int);
            if l - idx < 8 {
                return Err(CodecError::TooShort);
            }
            let key = read_u32(data, idx);
            let value_length = read_u32(data, idx + 4);
            assert(rest.subrange(0, 4) =~= data@.subrange(idx as int, idx + 4));
            assert(rest.subrange(4, 8) =~= data@.subrange(idx + 4, idx + 8));
            if value_length as usize > l - idx - 8 {
                return Err(CodecError::TooShort);
            }
            let start = idx + 8;
            let end = start + value_length as usize;
            let value = slice_to_vec(&data[start..end]);
            let kv = KeyValue { key: key as usize, version: 0, value };
            proof {
                let rest2 = data@.subrange(end as int, l as int);
                assert(rest.subrange(8 + value_length, rest.len() as int) =~= rest2);
                assert(rest.subrange(8, 8 + value_length) =~= kv.value@);
                assert(records_of(result@.push(kv)) =~= records_of(result@).push(record_of(kv)));
                match parse_records(rest2, (length - 1) as nat) {
                    Some(t) => {
                        assert(records_of(result@) + (seq![record_of(kv)] + t) =~= records_of(
                            result@,
                        ).push(record_of(kv)) + t);
                    },
                    None => {},
                }
            }
            result.push(kv);
            idx = end;
            length = length - 1;
        }
        if idx != l {
            return Err(CodecError::TrailingBytes);
        }
        assert(records_of(result@) + Seq::empty() =~= records_of(result@));
        Ok(result)
    }

    /// The reply encoding of this record.
    pub fn to_binary(&self) -> (r: Vec<u8>)
        requires
            self.key <= u32::MAX,
            self.value@.len() <= u32::MAX,
        ensures
            r@ == record_bytes(self.version, self.key as nat, self.value@),
    {
        let mut result = u32_to_le_bytes(self.version);
        let mut key = u32_to_le_bytes(self.key as u32);
        let mut len = u32_to_le_bytes(self.value.len() as u32);
        let mut value = slice_to_vec(self.value.as_slice());
        result.append(&mut key);
        result.append(&mut len);
        result.append(&mut value);
        result
    }
}

} // verus!
