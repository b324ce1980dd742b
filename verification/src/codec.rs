//! Text encodings used on the chain: lowercase hexadecimal (through the `hex`
//! crate), decimal numerals, and the `txid:index` keys of unspent outputs.
use vstd::prelude::*;
use vstd::string::*;
use vstd::utf8::{encode_utf8, is_ascii_chars, is_ascii_chars_encode_utf8};

verus! {

/// The lowercase hexadecimal digit for a value below 16.
pub open spec fn hex_digit(v: u8) -> char {
    if v < 10 {
        ((48 + v) as u8) as char
    } else {
        ((87 + v) as u8) as char
    }
}

/// Lowercase hexadecimal text of `data`: two digits per byte, high nibble first.
pub open spec fn hex_text(data: Seq<u8>) -> Seq<char> {
    Seq::new(
        2 * data.len(),
        |i: int|
            if i % 2 == 0 {
                hex_digit(data[i / 2] >> 4)
            } else {
                hex_digit(data[i / 2] & 0x0f)
            },
    )
}

/// The value of an ASCII hexadecimal digit (either case), if it is one.
pub open spec fn hex_value(c: u8) -> Option<u8> {
    if 48 <= c <= 57 {
        Some((c - 48) as u8)
    } else if 65 <= c <= 70 {
        Some((c - 55) as u8)
    } else if 97 <= c <= 102 {
        Some((c - 87) as u8)
    } else {
        None
    }
}

/// The bytes that hexadecimal text (as bytes) stands for, if it is of even
/// length and made of hexadecimal digits only.
pub open spec fn hex_bytes(text: Seq<u8>) -> Option<Seq<u8>> {
    if text.len() % 2 == 0 && (forall|i: int| 0 <= i < text.len() ==> #[trigger] hex_value(text[i]) is Some) {
        Some(
            Seq::new(
                text.len() / 2,
                |i: int| (hex_value(text[2 * i])->0 * 16 + hex_value(text[2 * i + 1])->0) as u8,
            ),
        )
    } else {
        None
    }
}

#[verifier::external_type_specification]
#[verifier::external_body]
pub struct ExFromHexError(hex::FromHexError);

/// Calls `hex::encode`. Trusted: the result is the lowercase hexadecimal text
/// of `data`, two digits per byte, high nibble first (as the crate documents
/// and its table `0123456789abcdef` shows).
#[verifier::external_body]
pub(crate) fn hex_encode(data: &[u8]) -> (text: String)
    ensures
        text@ == hex_text(data@),
{
    hex::encode(data)
}

/// Calls `hex::decode` on the bytes of a text. Trusted: it succeeds exactly on
/// even-length input made of hexadecimal digits of either case, and then gives
/// one byte per pair of digits, high nibble first.
#[verifier::external_body]
pub(crate) fn hex_decode(text: &[u8]) -> (decoded: Result<Vec<u8>, hex::FromHexError>)
    ensures
        decoded is Ok <==> hex_bytes(text@) is Some,
        decoded matches Ok(v) ==> v@ == hex_bytes(text@)->0,
{
    hex::decode(text)
}

/// Appends one character (`String::push`). Trusted: the text grows by `c`.
#[verifier::external_body]
pub(crate) fn push_char(text: &mut String, c: char)
    ensures
        final(text)@ == old(text)@.push(c),
{
    text.push(c)
}

/// The ASCII decimal digit for a value below 10.
pub open spec fn decimal_digit(d: nat) -> char {
    ((48 + d) as u8) as char
}

/// The decimal numeral of `n`, without sign or leading zeros.
pub open spec fn decimal_text(n: nat) -> Seq<char>
    decreases n,
{
    if n < 10 {
        seq![decimal_digit(n)]
    } else {
        decimal_text(n / 10).push(decimal_digit(n % 10))
    }
}

/// Appends the decimal numeral of `n` to `text`.
pub fn push_decimal(text: &mut String, n: u64)
    ensures
        final(text)@ == old(text)@ + decimal_text(n as nat),
    decreases n,
{
    if n >= 10 {
        push_decimal(text, n / 10);
    }
    let d = (n % 10) as u8;
    push_char(text, (48u8 + d) as char);
}

/// The key under which an unspent output is filed: the transaction id, a
/// colon, and the output's index in decimal.
pub open spec fn utxo_key(tx_id: Seq<char>, index: nat) -> Seq<char> {
    tx_id + seq![':'] + decimal_text(index)
}

/// Builds the key `tx_id:index` of an unspent output.
pub fn utxo_key_of(tx_id: &String, index: u64) -> (key: String)
    ensures
        key@ == utxo_key(tx_id@, index as nat),
{
    let mut key = tx_id.clone();
    push_char(&mut key, ':');
    push_decimal(&mut key, index);
    key
}

/// Whether a character is an ASCII decimal digit.
pub open spec fn is_digit(c: char) -> bool {
    '0' <= c <= '9'
}

/// The value of a string of decimal digits (0 for the empty string).
pub open spec fn digits_value(s: Seq<char>) -> nat
    decreases s.len(),
{
    if s.len() == 0 {
        0
    } else {
        digits_value(s.drop_last()) * 10 + ((s.last() as u32) - 48) as nat
    }
}

/// Whether every character is an ASCII decimal digit.
pub open spec fn all_digits(s: Seq<char>) -> bool {
    forall|i: int| 0 <= i < s.len() ==> is_digit(#[trigger] s[i])
}

/// The text without one leading `+`, if it has one.
pub open spec fn without_plus(s: Seq<char>) -> Seq<char> {
    if s.len() > 0 && s[0] == '+' {
        s.drop_first()
    } else {
        s
    }
}

/// The value of one or more decimal digits that fits in 32 bits.
pub open spec fn digits_u32(digits: Seq<char>) -> Option<u32> {
    if digits.len() == 0 || !all_digits(digits) || digits_value(digits) > u32::MAX {
        None
    } else {
        Some(digits_value(digits) as u32)
    }
}

/// What `str::parse::<u32>` gives: an optional `+`, then one or more decimal
/// digits whose value fits in 32 bits; anything else is refused.
pub open spec fn parse_u32_text(s: Seq<char>) -> Option<u32> {
    digits_u32(without_plus(s))
}

proof fn lemma_digits_value_grows(s: Seq<char>, n: int)
    requires
        0 <= n <= s.len(),
        all_digits(s),
    ensures
        digits_value(s.subrange(0, n)) <= digits_value(s),
    decreases s.len() - n,
{
    if n < s.len() {
        lemma_digits_value_grows(s, n + 1);
        assert(s.subrange(0, n + 1).drop_last() =~= s.subrange(0, n));
    } else {
        assert(s.subrange(0, n) =~= s);
    }
}

/// Parses a decimal `u32` as `str::parse` does, `None` where it would fail.
pub fn parse_u32(text: &str) -> (value: Option<u32>)
    ensures
        value == parse_u32_text(text@),
{
    let n = text.unicode_len();
    let mut start: usize = 0;
    if n > 0 && text.get_char(0) == '+' {
        start = 1;
    }
    let ghost digits = without_plus(text@);
    assert(digits =~= text@.subrange(start as int, n as int));
    if start == n {
        return None;
    }
    let mut acc: u64 = 0;
    let mut i = start;
    while i < n
        invariant
            start <= i <= n,
            n == text@.len(),
            start < n,
            digits == text@.subrange(start as int, n as int),
            digits == without_plus(text@),
            forall|k: int| 0 <= k < i - start ==> is_digit(#[trigger] digits[k]),
            acc == digits_value(digits.subrange(0, i - start)),
            acc <= u32::MAX,
        decreases n - i,
    {
        let c = text.get_char(i);
        assert(c == digits[i - start]);
        if c < '0' || c > '9' {
            assert(!is_digit(digits[i - start]));
            return None;
        }
        assert(digits.subrange(0, i + 1 - start).drop_last() =~= digits.subrange(0, i - start));
        acc = acc * 10 + ((c as u32) - 48) as u64;
        assert(acc == digits_value(digits.subrange(0, i + 1 - start)));
        if acc > 0xffff_ffff {
            proof {
                if all_digits(digits) {
                    lemma_digits_value_grows(digits, i + 1 - start);
                    assert(digits_value(digits) > u32::MAX);
                }
            }
            return None;
        }
        i = i + 1;
    }
    assert(digits.subrange(0, n - start) =~= digits);
    Some(acc as u32)
}

/// The debug text of a list of bytes: `[b0, b1, ...]` in decimal.
pub open spec fn byte_list_text(bytes: Seq<u8>) -> Seq<char> {
    seq!['['] + byte_items_text(bytes) + seq![']']
}

/// The items of a byte list, separated by `", "`.
pub open spec fn byte_items_text(bytes: Seq<u8>) -> Seq<char>
    decreases bytes.len(),
{
    if bytes.len() == 0 {
        Seq::empty()
    } else if bytes.len() == 1 {
        decimal_text(bytes[0] as nat)
    } else {
        byte_items_text(bytes.drop_last()) + seq![',', ' '] + decimal_text(bytes.last() as nat)
    }
}

/// Appends the debug text of a list of bytes.
pub fn push_byte_list(text: &mut String, bytes: &[u8])
    ensures
        final(text)@ == old(text)@ + byte_list_text(bytes@),
{
    let ghost start = text@;
    push_char(text, '[');
    for i in 0..bytes.len()
        invariant
            text@ == start + seq!['['] + byte_items_text(bytes@.subrange(0, i as int)),
    {
        if i > 0 {
            push_char(text, ',');
            push_char(text, ' ');
        }
        push_decimal(text, bytes[i] as u64);
        assert(bytes@.subrange(0, i + 1).drop_last() =~= bytes@.subrange(0, i as int));
        assert(text@ =~= start + seq!['['] + byte_items_text(bytes@.subrange(0, i + 1)));
    }
    assert(bytes@.subrange(0, bytes@.len() as int) =~= bytes@);
    push_char(text, ']');
    assert(text@ =~= start + byte_list_text(bytes@));
}

proof fn lemma_hex_digit_value(v: u8)
    requires
        v < 16,
    ensures
        '\0' <= hex_digit(v) <= '\u{7f}',
        hex_value(hex_digit(v) as u8) == Some(v),
{
}

/// Decoding the UTF-8 bytes of the hexadecimal text of some bytes gives those
/// bytes back.
pub proof fn lemma_hex_roundtrip(data: Seq<u8>)
    ensures
        hex_bytes(encode_utf8(hex_text(data))) == Some(data),
{
    let text = hex_text(data);
    assert forall|i: int| 0 <= i < text.len() implies '\0' <= #[trigger] text[i] <= '\u{7f}' && hex_value(text[i] as u8) is Some by {
        let b = data[i / 2];
        assert(b >> 4 < 16 && b & 0x0f < 16) by (bit_vector);
        lemma_hex_digit_value(b >> 4);
        lemma_hex_digit_value(b & 0x0f);
    }
    assert(is_ascii_chars(text));
    is_ascii_chars_encode_utf8(text);
    let bytes = encode_utf8(text);
    assert forall|i: int| 0 <= i < bytes.len() implies #[trigger] hex_value(bytes[i]) is Some by {
        assert(text[i] as u8 == bytes[i]);
    }
    assert(bytes.len() % 2 == 0);
    let decoded = hex_bytes(bytes)->0;
    assert forall|i: int| 0 <= i < data.len() implies #[trigger] decoded[i] == data[i] by {
        let b = data[i];
        assert(b >> 4 < 16 && b & 0x0f < 16) by (bit_vector);
        lemma_hex_digit_value(b >> 4);
        lemma_hex_digit_value(b & 0x0f);
        assert(text[2 * i] as u8 == bytes[2 * i]);
        assert(text[2 * i + 1] as u8 == bytes[2 * i + 1]);
        assert((2 * i) / 2 == i);
        assert((2 * i + 1) / 2 == i);
        assert(hex_value(bytes[2 * i]) == Some(b >> 4));
        assert(hex_value(bytes[2 * i + 1]) == Some(b & 0x0f));
        assert(((b >> 4) as int) * 16 + ((b & 0x0f) as int) == b as int) by (bit_vector);
    }
    assert(decoded =~= data);
}

/// The decimal numeral of `n` is made of digits only and reads back as `n`.
pub proof fn lemma_decimal_text_value(n: nat)
    ensures
        decimal_text(n).len() >= 1,
        all_digits(decimal_text(n)),
        digits_value(decimal_text(n)) == n,
    decreases n,
{
    if n < 10 {
        assert(decimal_text(n).drop_last() =~= Seq::<char>::empty());
        assert(digits_value(decimal_text(n).drop_last()) == 0);
        assert((decimal_digit(n) as u32) == 48 + n);
        assert(decimal_text(n).last() == decimal_digit(n));
    } else {
        lemma_decimal_text_value(n / 10);
        assert((decimal_digit(n % 10) as u32) == 48 + n % 10);
        let t = decimal_text(n);
        assert(t.drop_last() =~= decimal_text(n / 10));
        assert(t.last() == decimal_digit(n % 10));
        assert(digits_value(t) == digits_value(decimal_text(n / 10)) * 10 + n % 10);
        assert forall|i: int| 0 <= i < t.len() implies is_digit(#[trigger] t[i]) by {
            if i < t.len() - 1 {
                assert(t[i] == decimal_text(n / 10)[i]);
            }
        }
    }
}

/// Parsing the decimal numeral of a 32-bit number gives the number back.
pub proof fn lemma_parse_decimal_roundtrip(n: u32)
    ensures
        parse_u32_text(decimal_text(n as nat)) == Some(n),
{
    lemma_decimal_text_value(n as nat);
    let t = decimal_text(n as nat);
    assert(is_digit(t[0]));
    assert(without_plus(t) == t);
}

/// Different numbers have different decimal numerals.
pub proof fn lemma_decimal_text_injective(a: nat, b: nat)
    requires
        decimal_text(a) == decimal_text(b),
    ensures
        a == b,
{
    lemma_decimal_text_value(a);
    lemma_decimal_text_value(b);
}

/// Output keys are distinct for distinct indices of one transaction.
pub proof fn lemma_utxo_key_injective(tx_id: Seq<char>, a: nat, b: nat)
    requires
        utxo_key(tx_id, a) == utxo_key(tx_id, b),
    ensures
        a == b,
{
    let ka = utxo_key(tx_id, a);
    let kb = utxo_key(tx_id, b);
    let p = tx_id.len() + 1;
    assert(ka.subrange(p as int, ka.len() as int) =~= decimal_text(a));
    assert(kb.subrange(p as int, kb.len() as int) =~= decimal_text(b));
    lemma_decimal_text_injective(a, b);
}

/// The texts of a list of strings.
pub open spec fn texts(list: Seq<String>) -> Seq<Seq<char>> {
    list.map_values(|s: String| s@)
}

/// Whether some string of `list` has the text of `s`.
pub(crate) fn contains_text(list: &Vec<String>, s: &String) -> (found: bool)
    ensures
        found == texts(list@).contains(s@),
{
    for i in 0..list.len()
        invariant
            forall|j: int| 0 <= j < i ==> list@[j]@ != s@,
    {
        if list[i] == *s {
            assert(texts(list@)[i as int] == s@);
            return true;
        }
    }
    proof {
        if texts(list@).contains(s@) {
            let j = choose|j: int| 0 <= j < texts(list@).len() && texts(list@)[j] == s@;
            assert(list@[j]@ == s@);
        }
    }
    false
}

/// The encodings of the items of a list, one after another.
pub open spec fn concat_map<T>(s: Seq<T>, f: spec_fn(T) -> Seq<u8>) -> Seq<u8>
    decreases s.len(),
{
    if s.len() == 0 {
        Seq::empty()
    } else {
        concat_map(s.drop_last(), f) + f(s.last())
    }
}

/// The total length of the encodings of the first `k` items of a list.
pub open spec fn lens_sum<T>(s: Seq<T>, f: spec_fn(T) -> Seq<u8>, k: int) -> int
    decreases k,
{
    if k <= 0 {
        0
    } else {
        lens_sum(s, f, k - 1) + f(s[k - 1]).len()
    }
}

pub(crate) proof fn lemma_lens_sum_prefix<T>(s: Seq<T>, t: Seq<T>, f: spec_fn(T) -> Seq<u8>, k: int)
    requires
        0 <= k <= s.len(),
        k <= t.len(),
        forall|j: int| 0 <= j < k ==> s[j] == t[j],
    ensures
        lens_sum(s, f, k) == lens_sum(t, f, k),
    decreases k,
{
    if k > 0 {
        lemma_lens_sum_prefix(s, t, f, k - 1);
    }
}

pub(crate) proof fn lemma_lens_sum_grows<T>(s: Seq<T>, f: spec_fn(T) -> Seq<u8>, j: int, k: int)
    requires
        0 <= j <= k,
    ensures
        lens_sum(s, f, j) <= lens_sum(s, f, k),
    decreases k - j,
{
    if j < k {
        lemma_lens_sum_grows(s, f, j, k - 1);
    }
}

/// Each item's encoding stands, once and in order, at the offset given by
/// the lengths of the encodings before it.
pub(crate) proof fn lemma_concat_layout<T>(s: Seq<T>, f: spec_fn(T) -> Seq<u8>)
    ensures
        concat_map(s, f).len() == lens_sum(s, f, s.len() as int),
        forall|k: int| 0 <= k < s.len() ==> #[trigger] concat_map(s, f).subrange(
            lens_sum(s, f, k) as int,
            lens_sum(s, f, k + 1) as int,
        ) == f(s[k]),
    decreases s.len(),
{
    if s.len() > 0 {
        let d = s.drop_last();
        let n = s.len() as int;
        lemma_concat_layout(d, f);
        lemma_lens_sum_prefix(d, s, f, n - 1);
        let whole = concat_map(s, f);
        let head = concat_map(d, f);
        assert forall|k: int| 0 <= k < s.len() implies #[trigger] concat_map(s, f).subrange(
            lens_sum(s, f, k) as int,
            lens_sum(s, f, k + 1) as int,
        ) == f(s[k]) by {
            if k < n - 1 {
                lemma_lens_sum_prefix(d, s, f, k);
                lemma_lens_sum_prefix(d, s, f, k + 1);
                lemma_lens_sum_grows(d, f, k + 1, n - 1);
                lemma_lens_sum_grows(d, f, 0, k);
                lemma_lens_sum_grows(d, f, k, k + 1);
                assert(head.subrange(lens_sum(d, f, k) as int, lens_sum(d, f, k + 1) as int) == f(d[k]));
                assert(whole.subrange(lens_sum(s, f, k) as int, lens_sum(s, f, k + 1) as int)
                    =~= head.subrange(lens_sum(d, f, k) as int, lens_sum(d, f, k + 1) as int));
            } else {
                assert(whole.subrange(lens_sum(s, f, k) as int, lens_sum(s, f, k + 1) as int) =~= f(s.last()));
            }
        }
    }
}

} // verus!
