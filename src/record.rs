//! The encoding of one record as bytes, decoded against a table's column
//! types. Each column, in schema order, is a tag byte and its payload:
//! `0` null; `1` an integer, eight bytes little-endian two's complement;
//! `2` a boolean, one byte `0` or `1`; `3` text, an eight-byte little-endian
//! length and that many bytes of UTF-8. A record holds nothing after its
//! last column.
use vstd::prelude::*;
use vstd::utf8::{decode_utf8, valid_utf8};
use crate::value::{fits, ColType, Value, ValueModel};

verus! {

/// The unsigned number written in the eight bytes at `pos`, little-endian.
pub open spec fn le_u64_at(b: Seq<u8>, pos: int) -> int {
    b[pos] + 0x100 * b[pos + 1] + 0x1_0000 * b[pos + 2] + 0x100_0000 * b[pos + 3]
        + 0x1_0000_0000 * b[pos + 4] + 0x100_0000_0000 * b[pos + 5] + 0x1_0000_0000_0000 * b[pos
        + 6] + 0x100_0000_0000_0000 * b[pos + 7]
}

/// An unsigned 64-bit pattern read as two's complement.
pub open spec fn as_signed(u: int) -> int {
    if u < 0x8000_0000_0000_0000 {
        u
    } else {
        u - 0x1_0000_0000_0000_0000
    }
}

/// The value of a column of type `ty` encoded at `pos`, and where it ends.
pub open spec fn decode_cell(b: Seq<u8>, ty: ColType, pos: int) -> Option<(ValueModel, int)> {
    if pos < 0 || pos >= b.len() {
        None
    } else if b[pos] == 0 {
        Some((ValueModel::Null, pos + 1))
    } else if b[pos] == 1 && ty == ColType::Int && pos + 9 <= b.len() {
        Some((ValueModel::Int(as_signed(le_u64_at(b, pos + 1))), pos + 9))
    } else if b[pos] == 2 && ty == ColType::Bool && pos + 2 <= b.len() && b[pos + 1] <= 1 {
        Some((ValueModel::Bool(b[pos + 1] == 1), pos + 2))
    } else if b[pos] == 3 && ty == ColType::Text && pos + 9 <= b.len() && pos + 9 + le_u64_at(
        b,
        pos + 1,
    ) <= b.len() && valid_utf8(b.subrange(pos + 9, pos + 9 + le_u64_at(b, pos + 1))) {
        let end = pos + 9 + le_u64_at(b, pos + 1);
        Some((ValueModel::Text(decode_utf8(b.subrange(pos + 9, end))), end))
    } else {
        None
    }
}

/// The values of columns `i ..` encoded from `pos` to the end of `b`.
pub open spec fn decode_from(b: Seq<u8>, types: Seq<ColType>, i: int, pos: int) -> Option<
    Seq<ValueModel>,
>
    decreases types.len() - i,
{
    if i >= types.len() {
        if pos == b.len() {
            Some(Seq::empty())
        } else {
            None
        }
    } else {
        match decode_cell(b, types[i], pos) {
            Some((v, next)) => match decode_from(b, types, i + 1, next) {
                Some(rest) => Some(seq![v] + rest),
                None => None,
            },
            None => None,
        }
    }
}

/// The values of a whole record; `None` where the bytes do not encode one
/// of these column types.
pub open spec fn decode_record(b: Seq<u8>, types: Seq<ColType>) -> Option<Seq<ValueModel>> {
    decode_from(b, types, 0, 0)
}

/// The views of some values.
pub open spec fn models(vs: Seq<Value>) -> Seq<ValueModel> {
    vs.map_values(|v: Value| v@)
}

/// Relies on String::from_utf8: it accepts exactly the well-formed UTF-8
/// byte strings, and the string it returns holds the characters encoded.
#[verifier::external_body]
fn text_from_utf8(b: Vec<u8>) -> (r: Option<String>)
    ensures
        r is Some <==> valid_utf8(b@),
        r matches Some(s) ==> s@ == decode_utf8(b@),
{
    String::from_utf8(b).ok()
}

fn read_u64(b: &Vec<u8>, pos: usize) -> (r: u64)
    requires
        pos + 8 <= b@.len(),
    ensures
        r as int == le_u64_at(b@, pos as int),
{
    let len = b.len();
    assert(pos + 8 <= len);
    b[pos] as u64 + 0x100 * (b[pos + 1] as u64) + 0x1_0000 * (b[pos + 2] as u64) + 0x100_0000 * (
    b[pos + 3] as u64) + 0x1_0000_0000 * (b[pos + 4] as u64) + 0x100_0000_0000 * (b[pos
        + 5] as u64) + 0x1_0000_0000_0000 * (b[pos + 6] as u64) + 0x100_0000_0000_0000 * (b[pos
        + 7] as u64)
}

fn to_signed(u: u64) -> (r: i64)
    ensures
        r as int == as_signed(u as int),
{
    if u < 0x8000_0000_0000_0000 {
        u as i64
    } else {
        ((u - 0x8000_0000_0000_0000) as i64) + (-0x7FFF_FFFF_FFFF_FFFFi64 - 1)
    }
}

fn decode_cell_exec(b: &Vec<u8>, ty: ColType, pos: usize) -> (r: Option<(Value, usize)>)
    ensures
        match r {
            Some((v, next)) => decode_cell(b@, ty, pos as int) == Some((v@, next as int)),
            None => decode_cell(b@, ty, pos as int) is None,
        },
{
    let len = b.len();
    if pos >= len {
        return None;
    }
    let tag = b[pos];
    if tag == 0 {
        Some((Value::Null, pos + 1))
    } else if tag == 1 && ty == ColType::Int && 9 <= len - pos {
        Some((Value::Int(to_signed(read_u64(b, pos + 1))), pos + 9))
    } else if tag == 2 && ty == ColType::Bool && 2 <= len - pos && b[pos + 1] <= 1 {
        Some((Value::Bool(b[pos + 1] == 1), pos + 2))
    } else if tag == 3 && ty == ColType::Text && 9 <= len - pos {
        let n = read_u64(b, pos + 1);
        let start = pos + 9;
        if n > (len - start) as u64 {
            return None;
        }
        let end = start + n as usize;
        let mut bytes: Vec<u8> = Vec::new();
        let mut k: usize = start;
        while k < end
            invariant
                start <= k <= end <= b@.len(),
                bytes@ == b@.subrange(start as int, k as int),
            decreases end - k,
        {
            bytes.push(b[k]);
            assert(b@.subrange(start as int, k + 1) =~= b@.subrange(start as int, k as int).push(
                b@[k as int],
            ));
            k += 1;
        }
        match text_from_utf8(bytes) {
            Some(s) => Some((Value::Text(s), end)),
            None => None,
        }
    } else {
        None
    }
}

fn decode_from_exec(b: &Vec<u8>, types: &Vec<ColType>, i: usize, pos: usize) -> (r: Option<
    Vec<Value>,
>)
    requires
        i <= types@.len(),
    ensures
        match r {
            Some(vs) => decode_from(b@, types@, i as int, pos as int) == Some(models(vs@)),
            None => decode_from(b@, types@, i as int, pos as int) is None,
        },
    decreases types@.len() - i,
{
    if i == types.len() {
        if pos == b.len() {
            let empty: Vec<Value> = Vec::new();
            assert(models(empty@) =~= Seq::<ValueModel>::empty());
            return Some(empty);
        } else {
            return None;
        }
    }
    match decode_cell_exec(b, types[i], pos) {
        Some((v, next)) => match decode_from_exec(b, types, i + 1, next) {
            Some(rest) => {
                let ghost old_rest = rest@;
                let ghost vm = v@;
                let mut rest = rest;
                rest.insert(0, v);
                assert(models(rest@) =~= seq![vm] + models(old_rest));
                Some(rest)
            },
            None => None,
        },
        None => None,
    }
}

/// Decodes one record against the column types of its table.
pub fn decode_record_exec(b: &Vec<u8>, types: &Vec<ColType>) -> (r: Option<Vec<Value>>)
    ensures
        match r {
            Some(vs) => decode_record(b@, types@) == Some(models(vs@)),
            None => decode_record(b@, types@) is None,
        },
{
    decode_from_exec(b, types, 0, 0)
}

/// A decoding has one value for each remaining column.
pub proof fn lemma_decode_len(b: Seq<u8>, types: Seq<ColType>, i: int, pos: int)
    requires
        0 <= i <= types.len(),
        decode_from(b, types, i, pos) is Some,
    ensures
        decode_from(b, types, i, pos)->Some_0.len() == types.len() - i,
    decreases types.len() - i,
{
    if i < types.len() {
        let (v, next) = decode_cell(b, types[i], pos)->Some_0;
        lemma_decode_len(b, types, i + 1, next);
    }
}


/// Each decoded value fits the type of its column.
pub proof fn lemma_decode_fits(b: Seq<u8>, types: Seq<ColType>, i: int, pos: int)
    requires
        0 <= i <= types.len(),
        decode_from(b, types, i, pos) is Some,
    ensures
        forall|j: int|
            0 <= j < types.len() - i ==> fits(#[trigger] decode_from(b, types, i, pos)->Some_0[j], types[i + j]),
    decreases types.len() - i,
{
    if i < types.len() {
        let (v, next) = decode_cell(b, types[i], pos)->Some_0;
        lemma_decode_fits(b, types, i + 1, next);
        lemma_decode_len(b, types, i + 1, next);
        let rest = decode_from(b, types, i + 1, next)->Some_0;
        assert(decode_from(b, types, i, pos)->Some_0 == seq![v] + rest);
        assert forall|j: int| 0 <= j < types.len() - i implies fits(
            #[trigger] decode_from(b, types, i, pos)->Some_0[j],
            types[i + j],
        ) by {
            if j > 0 {
                assert(decode_from(b, types, i, pos)->Some_0[j] == rest[j - 1]);
            }
        }
    }
}
} // verus!
