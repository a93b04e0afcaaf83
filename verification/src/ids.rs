//! Identifiers: 128-bit UUIDs, held as integers and written as text.

use crate::error::Error;
use vstd::prelude::*;

verus! {

/// The identifier that a text stands for, or `None` where the text is not
/// an identifier in any of the notations that the `uuid` crate reads.
pub uninterp spec fn uuid_from_text(text: Seq<char>) -> Option<u128>;

/// The hexadecimal digit for `d`, in lower case.
pub open spec fn hex_char(d: nat) -> char {
    "0123456789abcdef"@[d as int]
}

/// The `width` low-order hexadecimal digits of `n`, most significant
/// first.
pub open spec fn hex_text(n: nat, width: nat) -> Seq<char>
    decreases width,
{
    if width == 0 {
        Seq::empty()
    } else {
        hex_text(n / 16, (width - 1) as nat).push(hex_char(n % 16))
    }
}

/// The text of an identifier in hyphenated notation: its thirty-two
/// hexadecimal digits in lower case, in groups of eight, four, four, four
/// and twelve with a hyphen between the groups.
pub open spec fn uuid_text(id: u128) -> Seq<char> {
    let digits = hex_text(id as nat, 32);
    digits.subrange(0, 8) + seq!['-'] + digits.subrange(8, 12) + seq!['-'] + digits.subrange(
        12,
        16,
    ) + seq!['-'] + digits.subrange(16, 20) + seq!['-'] + digits.subrange(20, 32)
}

/// Calls `uuid::Uuid::parse_str` and takes the value of the identifier with
/// `Uuid::as_u128`. Trusted: what comes back depends on the text alone.
#[verifier::external_body]
pub(crate) fn parse_uuid(text: &str) -> (r: Option<u128>)
    ensures
        r == uuid_from_text(text@),
{
    match uuid::Uuid::parse_str(text) {
        Ok(id) => Some(id.as_u128()),
        Err(_) => None,
    }
}

/// Builds the identifier with `uuid::Uuid::from_u128` and writes it with
/// `Uuid::hyphenated`. Trusted: the text is the value in hexadecimal, most
/// significant digit first and in lower case, with hyphens after the
/// eighth, twelfth, sixteenth and twentieth digit; and `Uuid::parse_str`
/// reads that text as the identifier it was written from.
#[verifier::external_body]
pub(crate) fn format_uuid(id: u128) -> (r: String)
    ensures
        r@ == uuid_text(id),
        uuid_from_text(r@) == Some(id),
{
    uuid::Uuid::from_u128(id).hyphenated().to_string()
}

/// Calls `uuid::Uuid::new_v4`, which draws a random identifier. Nothing is
/// claimed of the result: it may be any identifier, also one that is in use.
#[verifier::external_body]
pub(crate) fn random_uuid() -> (id: u128) {
    uuid::Uuid::new_v4().as_u128()
}

/// The text of an identifier in hyphenated notation. Reading the text
/// gives the identifier back.
pub fn id_text(id: u128) -> (r: String)
    ensures
        r@ == uuid_text(id),
        uuid_from_text(r@) == Some(id),
{
    format_uuid(id)
}

/// Reads an identifier from its text. `MalformedInput` where the text is
/// not an identifier.
pub fn parse_id(text: &str) -> (r: Result<u128, Error>)
    ensures
        r == match uuid_from_text(text@) {
            Some(id) => Ok::<u128, Error>(id),
            None => Err(Error::MalformedInput),
        },
{
    match parse_uuid(text) {
        Some(id) => Ok(id),
        None => Err(Error::MalformedInput),
    }
}

/// The number of values that `width` hexadecimal digits can tell apart: 16
/// to the power `width`.
pub open spec fn hex_capacity(width: nat) -> nat
    decreases width,
{
    if width == 0 {
        1
    } else {
        16 * hex_capacity((width - 1) as nat)
    }
}

/// Different digits are written with different characters.
pub proof fn lemma_hex_char_injective(a: nat, b: nat)
    requires
        a < 16,
        b < 16,
        hex_char(a) == hex_char(b),
    ensures
        a == b,
{
    reveal_strlit("0123456789abcdef");
}

/// The digits of `n` have the width asked for.
pub proof fn lemma_hex_text_len(n: nat, width: nat)
    ensures
        hex_text(n, width).len() == width,
    decreases width,
{
    if width > 0 {
        lemma_hex_text_len(n / 16, (width - 1) as nat);
    }
}

/// Numbers that fit in `width` digits and are written alike are equal.
pub proof fn lemma_hex_text_injective(n: nat, m: nat, width: nat)
    requires
        n < hex_capacity(width),
        m < hex_capacity(width),
        hex_text(n, width) == hex_text(m, width),
    ensures
        n == m,
    decreases width,
{
    if width > 0 {
        let a = hex_text(n / 16, (width - 1) as nat);
        let b = hex_text(m / 16, (width - 1) as nat);
        assert(a.push(hex_char(n % 16)).drop_last() =~= a);
        assert(b.push(hex_char(m % 16)).drop_last() =~= b);
        assert(a.push(hex_char(n % 16)).last() == hex_char(n % 16));
        assert(b.push(hex_char(m % 16)).last() == hex_char(m % 16));
        lemma_hex_char_injective(n % 16, m % 16);
        lemma_hex_text_injective(n / 16, m / 16, (width - 1) as nat);
    }
}

/// Different identifiers have different texts: the hyphenated notation
/// names each identifier in one way, and no two in the same way.
pub proof fn lemma_uuid_text_injective(a: u128, b: u128)
    ensures
        uuid_text(a) == uuid_text(b) <==> a == b,
{
    if uuid_text(a) == uuid_text(b) {
        let da = hex_text(a as nat, 32);
        let db = hex_text(b as nat, 32);
        lemma_hex_text_len(a as nat, 32);
        lemma_hex_text_len(b as nat, 32);
        assert forall|i: int| 0 <= i < 32 implies da[i] == db[i] by {
            let j = if i < 8 {
                i
            } else if i < 12 {
                i + 1
            } else if i < 16 {
                i + 2
            } else if i < 20 {
                i + 3
            } else {
                i + 4
            };
            assert(uuid_text(a)[j] == da[i]);
            assert(uuid_text(b)[j] == db[i]);
        }
        assert(da =~= db);
        assert(hex_capacity(32) == 0x1_0000_0000_0000_0000_0000_0000_0000_0000nat) by {
            reveal_with_fuel(hex_capacity, 33);
        }
        lemma_hex_text_injective(a as nat, b as nat, 32);
    }
}

} // verus!
