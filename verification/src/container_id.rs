//! Container ids as text.
use crate::dto::ContainerId;
use vstd::arithmetic::power::pow;
use vstd::prelude::*;

verus! {

/// The lower-case hexadecimal digit of `d`.
pub open spec fn hex_char(d: nat) -> char {
    if d < 10 {
        (48 + d) as char
    } else {
        (87 + d) as char
    }
}

/// The hexadecimal digit of `id` with `place` digits behind it.
pub open spec fn hex_digit(id: ContainerId, place: nat) -> nat {
    (id as int / pow(16, place) % 16) as nat
}

/// The text of an id: its 32 hexadecimal digits in groups of 8, 4, 4, 4 and 12,
/// with hyphens between the groups.
pub open spec fn id_text(id: ContainerId) -> Seq<char> {
    Seq::new(
        36,
        |i: int|
            if i == 8 || i == 13 || i == 18 || i == 23 {
                '-'
            } else if i < 8 {
                hex_char(hex_digit(id, (31 - i) as nat))
            } else if i < 13 {
                hex_char(hex_digit(id, (32 - i) as nat))
            } else if i < 18 {
                hex_char(hex_digit(id, (33 - i) as nat))
            } else if i < 23 {
                hex_char(hex_digit(id, (34 - i) as nat))
            } else {
                hex_char(hex_digit(id, (35 - i) as nat))
            },
    )
}

/// The id that `Uuid::parse_str` reads from a text, if it reads one.
pub uninterp spec fn id_of_text(s: Seq<char>) -> Option<ContainerId>;

/// `Uuid::from_u128` followed by its `to_string`: the hyphenated form in lower
/// case, which `Uuid::parse_str` reads back as the same id.
#[verifier::external_body]
pub(crate) fn id_to_text(id: ContainerId) -> (r: String)
    ensures
        r@ == id_text(id),
        id_of_text(r@) == Some(id),
{
    uuid::Uuid::from_u128(id).to_string()
}

/// `Uuid::parse_str`: the id written in a text in any of the forms that the
/// parser takes. Which texts these are keeps its name.
#[verifier::external_body]
pub(crate) fn text_to_id(s: &str) -> (r: Option<ContainerId>)
    ensures
        r == id_of_text(s@),
{
    match uuid::Uuid::parse_str(s) {
        Ok(id) => Some(id.as_u128()),
        Err(_) => None,
    }
}

/// The text of a container id.
pub fn format_container_id(id: ContainerId) -> (r: String)
    ensures
        r@ == id_text(id),
        id_of_text(r@) == Some(id),
{
    id_to_text(id)
}

/// The container id written in a text.
pub fn parse_container_id(s: &str) -> (r: Option<ContainerId>)
    ensures
        r == id_of_text(s@),
{
    text_to_id(s)
}

proof fn lemma_same_digits(a: ContainerId, b: ContainerId, n: nat)
    requires
        forall|place: nat| place < n ==> #[trigger] hex_digit(a, place) == hex_digit(b, place),
    ensures
        a as int % pow(16, n) == b as int % pow(16, n),
    decreases n,
{
    vstd::arithmetic::power::lemma_pow0(16);
    if n > 0 {
        let m = (n - 1) as nat;
        let p = pow(16, m);
        lemma_same_digits(a, b, m);
        vstd::arithmetic::power::lemma_pow_positive(16, m);
        vstd::arithmetic::power::lemma_pow_adds(16, m, 1);
        vstd::arithmetic::power::lemma_pow1(16);
        vstd::arithmetic::div_mod::lemma_mod_breakdown(a as int, p, 16);
        vstd::arithmetic::div_mod::lemma_mod_breakdown(b as int, p, 16);
        assert(hex_digit(a, m) == hex_digit(b, m));
        assert(0 <= a as int / p) by {
            vstd::arithmetic::div_mod::lemma_div_pos_is_pos(a as int, p);
        }
        assert(0 <= b as int / p) by {
            vstd::arithmetic::div_mod::lemma_div_pos_is_pos(b as int, p);
        }
    }
}

/// Where the digit with `place` digits behind it stands in the text of an id.
spec fn position(place: nat) -> int {
    if place >= 24 {
        31 - place
    } else if place >= 20 {
        32 - place
    } else if place >= 16 {
        33 - place
    } else if place >= 12 {
        34 - place
    } else {
        35 - place
    }
}

/// Different ids have different texts.
pub proof fn law_id_texts_differ(a: ContainerId, b: ContainerId)
    requires
        id_text(a) == id_text(b),
    ensures
        a == b,
{
    assert forall|place: nat| place < 32 implies #[trigger] hex_digit(a, place) == hex_digit(
        b,
        place,
    ) by {
        let i = position(place);
        assert(id_text(a)[i] == hex_char(hex_digit(a, place)));
        assert(id_text(b)[i] == hex_char(hex_digit(b, place)));
        assert(hex_digit(a, place) < 16 && hex_digit(b, place) < 16);
    }
    lemma_same_digits(a, b, 32);
    lemma_range();
    vstd::arithmetic::div_mod::lemma_small_mod(a as nat, pow(16, 32) as nat);
    vstd::arithmetic::div_mod::lemma_small_mod(b as nat, pow(16, 32) as nat);
}

proof fn lemma_range()
    ensures
        pow(16, 32) == 0x1_0000_0000_0000_0000_0000_0000_0000_0000,
{
    vstd::arithmetic::power::lemma_pow0(16);
    reveal_with_fuel(pow, 9);
    assert(pow(16, 8) == 0x1_0000_0000);
    vstd::arithmetic::power::lemma_pow_adds(16, 8, 8);
    assert(pow(16, 16) == 0x1_0000_0000_0000_0000);
    vstd::arithmetic::power::lemma_pow_adds(16, 16, 16);
}

} // verus!
