//! Message identifiers: 128-bit numbers, written as ULIDs or UUIDs.
use vstd::arithmetic::power;
use vstd::prelude::*;
use vstd::utf8;

verus! {

/// The digit of Crockford's base 32 alphabet that stands for `d`.
pub open spec fn crockford_digit(d: nat) -> char {
    seq![
        '0', '1', '2', '3', '4', '5', '6', '7', '8', '9', 'A', 'B', 'C', 'D', 'E', 'F',
        'G', 'H', 'J', 'K', 'M', 'N', 'P', 'Q', 'R', 'S', 'T', 'V', 'W', 'X', 'Y', 'Z',
    ][d as int]
}

/// What a base 32 digit stands for; letters count in either case.
pub open spec fn crockford_value(c: char) -> Option<nat> {
    let n = c as int;
    let letter = if 'a' as int <= n <= 'z' as int { n - 32 } else { n };
    if '0' as int <= n <= '9' as int {
        Some((n - '0' as int) as nat)
    } else if 'A' as int <= letter <= 'H' as int {
        Some((letter - 'A' as int + 10) as nat)
    } else if letter == 'J' as int || letter == 'K' as int {
        Some((letter - 'J' as int + 18) as nat)
    } else if letter == 'M' as int || letter == 'N' as int {
        Some((letter - 'M' as int + 20) as nat)
    } else if 'P' as int <= letter <= 'T' as int {
        Some((letter - 'P' as int + 22) as nat)
    } else if 'V' as int <= letter <= 'Z' as int {
        Some((letter - 'V' as int + 27) as nat)
    } else {
        None
    }
}

/// The last `n` base 32 digits of `v`.
pub open spec fn base32(v: nat, n: nat) -> Seq<char>
    decreases n,
{
    if n == 0 {
        Seq::empty()
    } else {
        base32(v / 32, (n - 1) as nat).push(crockford_digit(v % 32))
    }
}

/// The number that a sequence of base 32 digits stands for.
pub open spec fn base32_value(s: Seq<char>) -> nat
    decreases s.len(),
{
    if s.len() == 0 {
        0
    } else {
        base32_value(s.drop_last()) * 32 + crockford_value(s.last()).unwrap_or(0)
    }
}

pub open spec fn is_base32(s: Seq<char>) -> bool {
    forall|i: int| 0 <= i < s.len() ==> crockford_value(#[trigger] s[i]) is Some
}

/// The canonical text of a ULID: 26 base 32 digits.
pub open spec fn ulid_text(id: u128) -> Seq<char> {
    base32(id as nat, 26)
}

/// The identifier that a ULID text stands for: 26 base 32 digits, of which the lowest
/// 128 bits count.
pub open spec fn ulid_value(s: Seq<char>) -> Option<u128> {
    if s.len() == 26 && is_base32(s) {
        Some((base32_value(s) % (u128::MAX as nat + 1)) as u128)
    } else {
        None
    }
}

pub open spec fn hex_value(c: char) -> Option<nat> {
    let n = c as int;
    if '0' as int <= n <= '9' as int {
        Some((n - '0' as int) as nat)
    } else if 'a' as int <= n <= 'f' as int {
        Some((n - 'a' as int + 10) as nat)
    } else if 'A' as int <= n <= 'F' as int {
        Some((n - 'A' as int + 10) as nat)
    } else {
        None
    }
}

/// The number that a sequence of hexadecimal digits stands for.
pub open spec fn hex_number(s: Seq<char>) -> nat
    decreases s.len(),
{
    if s.len() == 0 {
        0
    } else {
        hex_number(s.drop_last()) * 16 + hex_value(s.last()).unwrap_or(0)
    }
}

/// The identifier that 32 hexadecimal digits stand for.
pub open spec fn hex32_value(s: Seq<char>) -> Option<u128> {
    if s.len() == 32 && forall|i: int| 0 <= i < 32 ==> hex_value(#[trigger] s[i]) is Some {
        Some(hex_number(s) as u128)
    } else {
        None
    }
}

/// The identifier that the hyphenated form `8-4-4-4-12` stands for.
pub open spec fn hyphenated_value(s: Seq<char>) -> Option<u128> {
    if s.len() == 36 && s[8] == '-' && s[13] == '-' && s[18] == '-' && s[23] == '-' {
        hex32_value(
            s.subrange(0, 8) + s.subrange(9, 13) + s.subrange(14, 18) + s.subrange(19, 23)
                + s.subrange(24, 36),
        )
    } else {
        None
    }
}

pub open spec fn ascii_lower(c: char) -> int {
    if 'A' as int <= c as int <= 'Z' as int {
        c as int + 32
    } else {
        c as int
    }
}

/// The text starts with `urn:uuid:`, in any case.
pub open spec fn has_urn_prefix(s: Seq<char>) -> bool {
    let prefix = seq!['u', 'r', 'n', ':', 'u', 'u', 'i', 'd', ':'];
    s.len() >= 9 && forall|i: int| 0 <= i < 9 ==> ascii_lower(#[trigger] s[i]) == prefix[i] as int
}

/// The identifier that a UUID text stands for: 32 digits, the hyphenated form, or the
/// hyphenated form in braces or behind `urn:uuid:`.
pub open spec fn uuid_value(s: Seq<char>) -> Option<u128> {
    if s.len() == 32 {
        hex32_value(s)
    } else if s.len() == 36 {
        hyphenated_value(s)
    } else if s.len() == 38 && s[0] == '{' && s[37] == '}' {
        hyphenated_value(s.subrange(1, 37))
    } else if s.len() == 45 && has_urn_prefix(s) {
        hyphenated_value(s.skip(9))
    } else {
        None
    }
}

/// A lower-case hexadecimal digit.
pub open spec fn hex_digit(d: nat) -> char {
    seq!['0', '1', '2', '3', '4', '5', '6', '7', '8', '9', 'a', 'b', 'c', 'd', 'e', 'f'][d as int]
}

/// The last `n` hexadecimal digits of `v`.
pub open spec fn base16(v: nat, n: nat) -> Seq<char>
    decreases n,
{
    if n == 0 {
        Seq::empty()
    } else {
        base16(v / 16, (n - 1) as nat).push(hex_digit(v % 16))
    }
}

/// The canonical text of a UUID: 32 digits in the groups `8-4-4-4-12`.
pub open spec fn uuid_text(id: u128) -> Seq<char> {
    let h = base16(id as nat, 32);
    h.subrange(0, 8) + seq!['-'] + h.subrange(8, 12) + seq!['-'] + h.subrange(12, 16) + seq!['-']
        + h.subrange(16, 20) + seq!['-'] + h.subrange(20, 32)
}

/// Why a text is not a ULID.
#[derive(Debug, Clone, Copy, PartialEq, Eq, Structural)]
pub enum UlidError {
    InvalidLength,
    InvalidChar,
}

impl UlidError {
    pub open spec fn spec_text(self) -> Seq<char> {
        match self {
            UlidError::InvalidLength => "invalid length"@,
            UlidError::InvalidChar => "invalid character"@,
        }
    }

    /// The reason in words.
    pub fn text(self) -> (res: String)
        ensures
            res@ == self.spec_text(),
    {
        match self {
            UlidError::InvalidLength => "invalid length".to_owned(),
            UlidError::InvalidChar => "invalid character".to_owned(),
        }
    }
}

/// Calls `ulid::Ulid::new`, which draws a fresh identifier from the clock and a random
/// source. Nothing is claimed of the number drawn.
#[verifier::external_body]
pub(crate) fn ulid_new() -> (id: u128) {
    ulid::Ulid::new().0
}

/// Calls `ulid::Ulid::to_string`, which writes the 26 digits of an identifier in
/// Crockford's base 32.
#[verifier::external_body]
pub(crate) fn ulid_to_string(id: u128) -> (text: String)
    ensures
        text@ == ulid_text(id),
{
    ulid::Ulid(id).to_string()
}

/// Calls `ulid::Ulid::from_string`, which reads 26 base 32 digits in either case. It turns
/// away a text that is not 26 bytes long before it looks at the digits.
#[verifier::external_body]
pub(crate) fn ulid_from_string(text: &str) -> (res: Result<u128, UlidError>)
    ensures
        match res {
            Ok(id) => ulid_value(text@) == Some(id),
            Err(UlidError::InvalidLength) => ulid_value(text@) is None && utf8::encode_utf8(text@).len()
                != 26,
            Err(UlidError::InvalidChar) => ulid_value(text@) is None && utf8::encode_utf8(text@).len()
                == 26,
        },
{
    match ulid::Ulid::from_string(text) {
        Ok(id) => Ok(id.0),
        Err(ulid::DecodeError::InvalidLength) => Err(UlidError::InvalidLength),
        Err(ulid::DecodeError::InvalidChar) => Err(UlidError::InvalidChar),
    }
}

/// Calls `uuid::Uuid::parse_str`, which reads the simple, hyphenated, braced and URN forms
/// of a UUID. Why a text was turned away is not kept.
#[verifier::external_body]
pub(crate) fn uuid_parse_str(text: &str) -> (res: Option<u128>)
    ensures
        res == uuid_value(text@),
{
    match uuid::Uuid::parse_str(text) {
        Ok(id) => Some(id.as_u128()),
        Err(_) => None,
    }
}

/// Calls `to_string` on a `uuid::Uuid`, which writes the hyphenated form in lower case.
#[verifier::external_body]
pub(crate) fn uuid_to_string(id: u128) -> (text: String)
    ensures
        text@ == uuid_text(id),
{
    uuid::Uuid::from_u128(id).to_string()
}

/// The identifier that a text stands for, as a ULID or else as a UUID.
pub open spec fn id_value(s: Seq<char>) -> Option<u128> {
    match ulid_value(s) {
        Some(id) => Some(id),
        None => uuid_value(s),
    }
}

/// Reads an identifier, as a ULID or else as a UUID.
pub fn parse_id(text: &str) -> (res: Option<u128>)
    ensures
        res == id_value(text@),
{
    match ulid_from_string(text) {
        Ok(id) => Some(id),
        Err(_) => uuid_parse_str(text),
    }
}

/// Writes an identifier as a ULID.
pub fn format_id(id: u128) -> (text: String)
    ensures
        text@ == ulid_text(id),
        id_value(text@) == Some(id),
{
    proof {
        law_ulid_round_trip(id);
    }
    ulid_to_string(id)
}

proof fn lemma_base32(v: nat, n: nat)
    requires
        v < power::pow(32, n),
    ensures
        base32(v, n).len() == n,
        is_base32(base32(v, n)),
        base32_value(base32(v, n)) == v,
    decreases n,
{
    reveal(power::pow);
    if n > 0 {
        let m = (n - 1) as nat;
        let p = power::pow(32, m);
        assert(power::pow(32, n) == 32 * p);
        assert(v / 32 < p);
        lemma_base32(v / 32, m);
        assert(base32(v, n).drop_last() =~= base32(v / 32, m));
        assert(crockford_value(crockford_digit(v % 32)) == Some(v % 32));
    }
}

/// A ULID text reads back as the identifier it was written for.
pub proof fn law_ulid_round_trip(id: u128)
    ensures
        ulid_text(id).len() == 26,
        ulid_value(ulid_text(id)) == Some(id),
{
    assert(id < power::pow(32, 26)) by {
        reveal_with_fuel(power::pow, 27);
    }
    lemma_base32(id as nat, 26);
    vstd::arithmetic::div_mod::lemma_small_mod(id as nat, u128::MAX as nat + 1);
}

/// Different identifiers have different texts.
pub proof fn law_ulid_text_is_injective(a: u128, b: u128)
    ensures
        ulid_text(a) == ulid_text(b) ==> a == b,
{
    law_ulid_round_trip(a);
    law_ulid_round_trip(b);
}

proof fn lemma_base16(v: nat, n: nat)
    requires
        v < power::pow(16, n),
    ensures
        base16(v, n).len() == n,
        forall|i: int| 0 <= i < n ==> hex_value(#[trigger] base16(v, n)[i]) is Some,
        hex_number(base16(v, n)) == v,
    decreases n,
{
    reveal(power::pow);
    if n > 0 {
        let m = (n - 1) as nat;
        let p = power::pow(16, m);
        assert(power::pow(16, n) == 16 * p);
        assert(v / 16 < p);
        lemma_base16(v / 16, m);
        assert(base16(v, n).drop_last() =~= base16(v / 16, m));
        assert(hex_value(hex_digit(v % 16)) == Some(v % 16));
    }
}

/// A UUID text reads back as the identifier it was written for.
pub proof fn law_uuid_round_trip(id: u128)
    ensures
        uuid_text(id).len() == 36,
        uuid_value(uuid_text(id)) == Some(id),
        id_value(uuid_text(id)) == Some(id),
{
    assert(id < power::pow(16, 32)) by {
        reveal_with_fuel(power::pow, 33);
    }
    lemma_base16(id as nat, 32);
    let h = base16(id as nat, 32);
    let s = uuid_text(id);
    assert(s.subrange(0, 8) + s.subrange(9, 13) + s.subrange(14, 18) + s.subrange(19, 23)
        + s.subrange(24, 36) =~= h);
}

/// The two characters are the same but for their case.
pub open spec fn same_but_for_case(a: char, b: char) -> bool {
    ||| a == b
    ||| 'A' <= a <= 'Z' && b as int == a as int + 32
    ||| 'A' <= b <= 'Z' && a as int == b as int + 32
}

/// Texts that differ in the case of their letters only read as the same ULID, or both as none.
pub proof fn law_ulid_ignores_case(a: Seq<char>, b: Seq<char>)
    requires
        a.len() == b.len(),
        forall|i: int| 0 <= i < a.len() ==> same_but_for_case(#[trigger] a[i], b[i]),
    ensures
        ulid_value(a) == ulid_value(b),
{
    lemma_base32_ignores_case(a, b);
}

proof fn lemma_base32_ignores_case(a: Seq<char>, b: Seq<char>)
    requires
        a.len() == b.len(),
        forall|i: int| 0 <= i < a.len() ==> same_but_for_case(#[trigger] a[i], b[i]),
    ensures
        is_base32(a) == is_base32(b),
        is_base32(a) ==> base32_value(a) == base32_value(b),
    decreases a.len(),
{
    assert forall|i: int| 0 <= i < a.len() implies crockford_value(#[trigger] a[i])
        == crockford_value(b[i]) by {
        assert(same_but_for_case(a[i], b[i]));
    }
    if is_base32(a) {
        assert forall|i: int| 0 <= i < b.len() implies crockford_value(
            #[trigger] b[i],
        ) is Some by {
            assert(crockford_value(a[i]) is Some);
        }
    }
    if is_base32(b) {
        assert forall|i: int| 0 <= i < a.len() implies crockford_value(
            #[trigger] a[i],
        ) is Some by {
            assert(crockford_value(b[i]) is Some);
        }
    }
    if a.len() > 0 {
        let x = a.drop_last();
        let y = b.drop_last();
        assert forall|i: int| 0 <= i < x.len() implies same_but_for_case(#[trigger] x[i], y[i]) by {
            assert(same_but_for_case(a[i], b[i]));
        }
        lemma_base32_ignores_case(x, y);
        assert(crockford_value(a[a.len() - 1]) == crockford_value(b[b.len() - 1]));
    }
}

/// A text with a character that is no digit of a ULID, or of another length, is no ULID.
pub proof fn law_other_text_is_no_ulid(text: Seq<char>, i: int)
    requires
        text.len() != 26 || (0 <= i < text.len() && (text[i] == 'I' || text[i] == 'L' || text[i]
            == 'O' || text[i] == 'U' || text[i] == '-' || text[i] == ' ')),
    ensures
        ulid_value(text) is None,
{
    if text.len() == 26 && is_base32(text) {
        assert(crockford_value(text[i]) is Some);
    }
}

/// A UUID reads the same with its hyphens, without them, and in braces.
pub proof fn law_uuid_forms_agree(id: u128)
    ensures
        uuid_value(base16(id as nat, 32)) == Some(id),
        uuid_value(uuid_text(id)) == Some(id),
        uuid_value(seq!['{'] + uuid_text(id) + seq!['}']) == Some(id),
{
    law_uuid_round_trip(id);
    assert(id < power::pow(16, 32)) by {
        reveal_with_fuel(power::pow, 33);
    }
    lemma_base16(id as nat, 32);
    let braced = seq!['{'] + uuid_text(id) + seq!['}'];
    assert(braced.subrange(1, 37) =~= uuid_text(id));
}

}
