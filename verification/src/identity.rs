//! Random names under which a node speaks.

use vstd::arithmetic::div_mod::lemma_div_denominator;
use vstd::arithmetic::power::{lemma_pow_positive, pow};
use vstd::prelude::*;
use vstd::utf8::{encode_utf8, is_ascii_chars, is_ascii_chars_encode_utf8};

verus! {

/// Length of an identifier in text form.
pub const ID_LEN: usize = 36;

/// The hexadecimal digit of `id` at `place`, counted from the most significant
/// of the thirty-two.
pub open spec fn hex_at(id: u128, place: int) -> int {
    (id as int / pow(16, (31 - place) as nat)) % 16
}

/// The lower-case character of a hexadecimal digit.
pub open spec fn hex_char(digit: int) -> char {
    if digit < 10 {
        (('0' as u8) + digit) as char
    } else {
        (('a' as u8) + digit - 10) as char
    }
}

/// The hyphenated text form of an identifier: groups of eight, four, four,
/// four and twelve digits.
pub open spec fn id_text(id: u128) -> Seq<char> {
    Seq::new(
        ID_LEN as nat,
        |i: int|
            if i == 8 || i == 13 || i == 18 || i == 23 {
                '-'
            } else if i < 8 {
                hex_char(hex_at(id, i))
            } else if i < 13 {
                hex_char(hex_at(id, i - 1))
            } else if i < 18 {
                hex_char(hex_at(id, i - 2))
            } else if i < 23 {
                hex_char(hex_at(id, i - 3))
            } else {
                hex_char(hex_at(id, i - 4))
            },
    )
}

/// Whether the version and variant digits mark `id` as drawn at random.
pub open spec fn is_random_id(id: u128) -> bool {
    &&& hex_at(id, 12) == 4
    &&& 8 <= hex_at(id, 16) <= 11
}

/// Whether `text` is the text form of an identifier drawn at random.
pub open spec fn names_random_id(text: Seq<char>) -> bool {
    exists|id: u128| is_random_id(id) && text == #[trigger] id_text(id)
}

/// Calls `uuid::Uuid::new_v4`: whatever the operating system's generator
/// yields, the version digit is 4 and the variant digit is one of 8, 9, a, b.
/// Which of these identifiers comes is left to chance. Without a generator the
/// call does not return; that depends on the machine and on nothing else.
#[verifier::external_body]
fn draw_id() -> (id: u128)
    ensures
        is_random_id(id),
{
    uuid::Uuid::new_v4().as_u128()
}

/// Calls the `Display` form of `uuid::Uuid`, which is the hyphenated one in
/// lower case.
#[verifier::external_body]
fn hyphenated(id: u128) -> (text: String)
    ensures
        text@ == id_text(id),
{
    uuid::Uuid::from_u128(id).to_string()
}

/// Draws a new name.
pub fn fresh_id() -> (text: String)
    ensures
        names_random_id(text@),
{
    let id: u128 = draw_id();
    hyphenated(id)
}

/// The name of a node takes thirty-six bytes.
pub proof fn law_id_length(text: Seq<char>)
    requires
        names_random_id(text),
    ensures
        text.len() == ID_LEN,
        encode_utf8(text).len() == ID_LEN,
{
    let id = choose|id: u128| is_random_id(id) && text == #[trigger] id_text(id);
    assert(is_ascii_chars(text));
    is_ascii_chars_encode_utf8(text);
}

/// The name of a node is lower-case hexadecimal digits with hyphens after the
/// eighth, twelfth, sixteenth and twentieth, of which one digit is a 4 and one
/// is among 8, 9, a and b.
pub proof fn law_shape_of_a_name(text: Seq<char>, i: int)
    requires
        names_random_id(text),
        0 <= i < 36,
    ensures
        text.len() == 36,
        text[i] == '-' <==> i == 8 || i == 13 || i == 18 || i == 23,
        text[i] != '-' ==> '0' <= text[i] <= '9' || 'a' <= text[i] <= 'f',
        text[14] == '4',
        text[19] == '8' || text[19] == '9' || text[19] == 'a' || text[19] == 'b',
{
}

/// Two identifiers never read the same.
pub proof fn law_names_tell_identifiers_apart(a: u128, b: u128)
    requires
        id_text(a) == id_text(b),
    ensures
        a == b,
{
    assert forall|place: int| 0 <= place < 32 implies #[trigger] hex_at(a, place) == hex_at(
        b,
        place,
    ) by {
        let i = if place < 8 {
            place
        } else if place < 12 {
            place + 1
        } else if place < 16 {
            place + 2
        } else if place < 20 {
            place + 3
        } else {
            place + 4
        };
        assert(id_text(a)[i] == hex_char(hex_at(a, place)));
        assert(id_text(b)[i] == hex_char(hex_at(b, place)));
    }
    lemma_leading_digits(a, b, 32);
    assert(pow(16, 0) == 1) by {
        reveal(pow);
    }
}

proof fn lemma_leading_digits(a: u128, b: u128, count: nat)
    requires
        count <= 32,
        forall|place: int|
            0 <= place < count ==> #[trigger] hex_at(a, place) == hex_at(b, place),
    ensures
        a as int / pow(16, (32 - count) as nat) == b as int / pow(16, (32 - count) as nat),
    decreases count,
{
    if count == 0 {
        assert(pow(16, 32) == 0x1_0000_0000_0000_0000_0000_0000_0000_0000) by {
            reveal(pow);
            reveal_with_fuel(pow, 33);
        }
    } else {
        let rest = (32 - count) as nat;
        lemma_leading_digits(a, b, (count - 1) as nat);
        lemma_pow_positive(16, rest);
        lemma_div_denominator(a as int, pow(16, rest), 16);
        lemma_div_denominator(b as int, pow(16, rest), 16);
        assert(pow(16, rest + 1) == pow(16, rest) * 16) by {
            reveal(pow);
        }
        assert(hex_at(a, count - 1) == hex_at(b, count - 1));
    }
}

} // verus!
