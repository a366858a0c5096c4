use vstd::prelude::*;

verus! {

/// The value stored in one auxiliary field of a record, by type.
pub enum AuxValue {
    Text(Vec<u8>),
    Char(u8),
    Integer(i64),
    Real,
    HexBytes(Vec<u8>),
    Array,
}

/// Why an auxiliary field could not be read.
#[derive(Clone, Copy, Debug, PartialEq, Eq, Structural)]
pub enum AuxError {
    NotFound,
    Malformed,
}

/// The identifier carried by a field lookup: present only for a string-typed value.
pub open spec fn barcode_of(a: Result<AuxValue, AuxError>) -> Option<Seq<u8>> {
    match a {
        Ok(AuxValue::Text(s)) => Some(s@),
        _ => None,
    }
}

/// Plain view of an optional identifier.
pub open spec fn opt_view(o: Option<Vec<u8>>) -> Option<Seq<u8>> {
    match o {
        Some(v) => Some(v@),
        None => None,
    }
}

/// The two-byte code of the auxiliary field that holds the cell barcode.
pub fn barcode_tag() -> (r: [u8; 2])
    ensures
        r@ == seq![67u8, 66u8],
{
    let r: [u8; 2] = [67u8, 66u8];
    assert(r@ =~= seq![67u8, 66u8]);
    r
}

/// The identifier of a field lookup. A missing field and a value of any type
/// other than string both give `None`.
pub fn extract_barcode(a: Result<AuxValue, AuxError>) -> (r: Option<Vec<u8>>)
    ensures
        opt_view(r) == barcode_of(a),
{
    match a {
        Ok(AuxValue::Text(s)) => Some(s),
        Ok(AuxValue::Char(_)) => None,
        Ok(AuxValue::Integer(_)) => None,
        Ok(AuxValue::Real) => None,
        Ok(AuxValue::HexBytes(_)) => None,
        Ok(AuxValue::Array) => None,
        Err(AuxError::NotFound) => None,
        Err(AuxError::Malformed) => None,
    }
}

} // verus!
