//! Git object ids.
use crate::error::FatError;
use crate::hashing::hex_text;
use git2::Oid;
use vstd::prelude::*;

verus! {

/// The id of a Git object.
#[verifier::external_type_specification]
#[verifier::external_body]
pub struct ExOid(git2::Oid);

/// The bytes that an object id holds.
pub uninterp spec fn oid_bytes(id: Oid) -> [u8; 20];

/// The value of a hexadecimal digit, in either case.
pub open spec fn hex_value(c: char) -> Option<int> {
    if '0' <= c <= '9' {
        Some(c as int - 48)
    } else if 'a' <= c <= 'f' {
        Some(c as int - 87)
    } else if 'A' <= c <= 'F' {
        Some(c as int - 55)
    } else {
        None
    }
}

/// Whether a text is an object id: one to forty hexadecimal digits.
pub open spec fn is_oid_text(text: Seq<char>) -> bool {
    &&& 1 <= text.len() <= 40
    &&& forall|i: int| 0 <= i < text.len() ==> hex_value(#[trigger] text[i]) is Some
}

/// The digit at a position of an id, where missing digits are zero.
pub open spec fn oid_digit(text: Seq<char>, i: int) -> int {
    if i < text.len() {
        hex_value(text[i])->0
    } else {
        0
    }
}

/// The twenty bytes of an object id that is given in hexadecimal.
pub open spec fn oid_text_bytes(text: Seq<char>) -> Seq<u8> {
    Seq::new(20, |i: int| (16 * oid_digit(text, 2 * i) + oid_digit(text, 2 * i + 1)) as u8)
}

/// `Oid::from_str` reads one to forty hexadecimal digits in either case, and takes missing
/// digits for zeros. Any other text is an error.
#[verifier::external_body]
fn oid_from_str(text: &str) -> (res: Result<Oid, git2::Error>)
    ensures
        match res {
            Ok(id) => is_oid_text(text@) && oid_bytes(id)@ == oid_text_bytes(text@),
            Err(_) => !is_oid_text(text@),
        },
{
    Oid::from_str(text)
}

/// An object id displays as its bytes in lower-case hexadecimal.
#[verifier::external_body]
pub(crate) fn oid_display(id: &Oid) -> (res: String)
    ensures
        res@ == hex_text(oid_bytes(*id)@),
{
    id.to_string()
}

/// Reads an object id.
pub fn parse_oid(text: &str) -> (res: Result<Oid, FatError>)
    ensures
        match res {
            Ok(id) => is_oid_text(text@) && oid_bytes(id)@ == oid_text_bytes(text@),
            Err(error) => !is_oid_text(text@) && error is Git,
        },
{
    match oid_from_str(text) {
        Ok(id) => Ok(id),
        Err(error) => Err(FatError::Git(error)),
    }
}

/// What an object id displays as reads back as the same id.
pub proof fn law_oid_text_round_trip(bytes: [u8; 20])
    ensures
        is_oid_text(hex_text(bytes@)),
        oid_text_bytes(hex_text(bytes@)) == bytes@,
{
    let text = hex_text(bytes@);
    assert forall|i: int| 0 <= i < text.len() implies hex_value(#[trigger] text[i]) is Some by {
        assert(bytes@[i / 2] as int / 16 < 16);
    }
    assert forall|i: int| 0 <= i < 20 implies #[trigger] oid_text_bytes(text)[i] == bytes@[i] by {
        assert((2 * i) / 2 == i && (2 * i) % 2 == 0);
        assert((2 * i + 1) / 2 == i && (2 * i + 1) % 2 == 1);
        assert(oid_digit(text, 2 * i) == bytes@[i] as int / 16);
        assert(oid_digit(text, 2 * i + 1) == bytes@[i] as int % 16);
    }
    assert(oid_text_bytes(text) =~= bytes@);
}

} // verus!
