//! Check-digit validators for identifiers that carry their own checksum.
//!
//! Each validator reads the ASCII digits of its argument (and, for some
//! identifiers, its other characters) and says whether the checksum holds.
use vstd::prelude::*;
use vstd::string::StringSliceAdditionalSpecFns;

use crate::text::{
    chars_of, digit_value, digit_values, digits_of, is_ascii_digit, is_unicode_whitespace,
    is_whitespace, push_char,
};
use vstd::utf8::{decode_utf8, encode_utf8, is_char_boundary};

verus! {

// ---------------------------------------------------------------------------
// Weighted sums
// ---------------------------------------------------------------------------

/// `d[0] * w[0] + ... + d[k-1] * w[k-1]`.
pub open spec fn weighted_sum(d: Seq<u32>, w: Seq<u32>, k: int) -> int
    decreases k,
{
    if k <= 0 {
        0
    } else {
        weighted_sum(d, w, k - 1) + d[k - 1] * w[k - 1]
    }
}

pub proof fn lemma_weighted_sum_bound(d: Seq<u32>, w: Seq<u32>, k: int)
    requires
        0 <= k <= d.len(),
        k <= w.len(),
        forall|i: int| 0 <= i < d.len() ==> d[i] <= 9,
        forall|i: int| 0 <= i < w.len() ==> w[i] <= 19,
    ensures
        0 <= weighted_sum(d, w, k) <= 171 * k,
    decreases k,
{
    if k > 0 {
        lemma_weighted_sum_bound(d, w, k - 1);
        let a = d[k - 1];
        let b = w[k - 1];
        assert(0 <= a * b <= 171) by (nonlinear_arith)
            requires
                a <= 9,
                b <= 19,
        ;
    }
}

/// Computes `weighted_sum(d, w, k)` for digits `d` and small weights `w`.
fn weighted_sum_exec(d: &Vec<u32>, w: &[u32], k: usize) -> (res: u64)
    requires
        k <= d@.len(),
        k <= w@.len(),
        k <= 1000,
        forall|i: int| 0 <= i < d@.len() ==> d@[i] <= 9,
        forall|i: int| 0 <= i < w@.len() ==> w@[i] <= 19,
    ensures
        res as int == weighted_sum(d@, w@, k as int),
{
    let mut sum: u64 = 0;
    let mut i: usize = 0;
    while i < k
        invariant
            i <= k,
            k <= d@.len(),
            k <= w@.len(),
            k <= 1000,
            forall|j: int| 0 <= j < d@.len() ==> d@[j] <= 9,
            forall|j: int| 0 <= j < w@.len() ==> w@[j] <= 19,
            sum as int == weighted_sum(d@, w@, i as int),
        decreases k - i,
    {
        proof {
            lemma_weighted_sum_bound(d@, w@, i as int + 1);
        }
        let a = d[i];
        let b = w[i];
        assert(a * b <= 171) by (nonlinear_arith)
            requires
                a <= 9,
                b <= 19,
        ;
        sum = sum + (a * b) as u64;
        i = i + 1;
    }
    sum
}

// ---------------------------------------------------------------------------
// Luhn (payment cards)
// ---------------------------------------------------------------------------

/// The Luhn contribution of one digit: doubled digits above 9 lose 9.
pub open spec fn luhn_term(d: u32, doubled: bool) -> int {
    if doubled {
        if 2 * d > 9 {
            2 * d - 9
        } else {
            2 * d
        }
    } else {
        d as int
    }
}

/// The Luhn sum: every digit at an odd distance from the last digit is doubled.
pub open spec fn luhn_total(d: Seq<u32>) -> int
    decreases d.len(),
{
    if d.len() == 0 {
        0
    } else {
        luhn_term(d[0], (d.len() - 1) % 2 == 1) + luhn_total(d.drop_first())
    }
}

/// A number passes the Luhn check when it has at least two digits and its
/// Luhn sum is a multiple of 10.
pub open spec fn luhn_valid(s: Seq<char>) -> bool {
    digit_values(s).len() >= 2 && luhn_total(digit_values(s)) % 10 == 0
}

proof fn lemma_luhn_suffix_le(d: Seq<u32>, i: int)
    requires
        0 <= i <= d.len(),
    ensures
        0 <= luhn_total(d.subrange(i, d.len() as int)) <= luhn_total(d),
    decreases i,
{
    if i > 0 {
        lemma_luhn_suffix_le(d.drop_first(), i - 1);
        assert(d.drop_first().subrange(i - 1, d.drop_first().len() as int) == d.subrange(
            i,
            d.len() as int,
        ));
    } else {
        assert(d.subrange(0, d.len() as int) == d);
        lemma_luhn_nonneg(d);
    }
}

proof fn lemma_luhn_nonneg(d: Seq<u32>)
    ensures
        luhn_total(d) >= 0,
    decreases d.len(),
{
    if d.len() > 0 {
        lemma_luhn_nonneg(d.drop_first());
    }
}

/// Luhn checksum of the ASCII digits of `number`; other characters are ignored.
pub fn luhn_check(number: &str) -> (res: bool)
    requires
        luhn_total(digit_values(number@)) <= u32::MAX,
    ensures
        res == luhn_valid(number@),
{
    let digits = digits_of(number);
    let n = digits.len();
    if n < 2 {
        return false;
    }
    let ghost d = digits@;
    let mut sum: u32 = 0;
    let mut double = false;
    let mut i: usize = n;
    while i > 0
        invariant
            i <= n,
            n == d.len(),
            d == digits@,
            forall|j: int| 0 <= j < d.len() ==> d[j] <= 9,
            luhn_total(d) <= u32::MAX,
            sum as int == luhn_total(d.subrange(i as int, n as int)),
            double == ((n - i) % 2 == 1),
        decreases i,
    {
        let ghost suffix = d.subrange(i - 1, n as int);
        assert(suffix.drop_first() == d.subrange(i as int, n as int));
        proof {
            lemma_luhn_suffix_le(d, i - 1);
        }
        let mut val = digits[i - 1];
        if double {
            val = val * 2;
            if val > 9 {
                val = val - 9;
            }
        }
        sum = sum + val;
        double = !double;
        i = i - 1;
    }
    assert(d.subrange(0, n as int) == d);
    sum % 10 == 0
}

// ---------------------------------------------------------------------------
// Chinese resident identity card
// ---------------------------------------------------------------------------

/// Weights of the first seventeen digits of a Chinese identity number.
pub open spec fn cn_weights() -> Seq<u32> {
    seq![7, 9, 10, 5, 8, 4, 2, 1, 6, 3, 7, 9, 10, 5, 8, 4, 2]
}

/// Check characters, indexed by the weighted sum modulo 11.
pub open spec fn cn_check_chars() -> Seq<char> {
    seq!['1', '0', 'X', '9', '8', '7', '6', '5', '4', '3', '2']
}

/// The code point of `c` with ASCII lowercase letters mapped to uppercase.
pub open spec fn ascii_upper_code(c: char) -> u32 {
    if 97 <= (c as u32) <= 122 {
        (c as u32 - 32) as u32
    } else {
        c as u32
    }
}

/// The values of the first `k` characters of `s`, read as digits.
pub open spec fn leading_digit_values(s: Seq<char>, k: int) -> Seq<u32> {
    Seq::new(k as nat, |i: int| digit_value(s[i]))
}

/// An 18-character identity number whose first seventeen characters are
/// digits and whose last character, uppercased, is the check character.
pub open spec fn cn_id_valid(s: Seq<char>) -> bool {
    &&& s.len() == 18
    &&& forall|i: int| 0 <= i < 17 ==> is_ascii_digit(#[trigger] s[i])
    &&& ascii_upper_code(s[17]) == cn_check_chars()[weighted_sum(
        leading_digit_values(s, 17),
        cn_weights(),
        17,
    ) % 11] as u32
}

/// Checks a Chinese resident identity number (GB 11643).
pub fn cn_id_check(id: &str) -> (res: bool)
    ensures
        res == cn_id_valid(id@),
{
    let chars = chars_of(id);
    if chars.len() != 18 {
        return false;
    }
    let weights: [u32; 17] = [7, 9, 10, 5, 8, 4, 2, 1, 6, 3, 7, 9, 10, 5, 8, 4, 2];
    let check_chars: [char; 11] = ['1', '0', 'X', '9', '8', '7', '6', '5', '4', '3', '2'];
    assert(weights@ == cn_weights());
    assert(check_chars@ == cn_check_chars());
    let mut digits: Vec<u32> = Vec::new();
    let mut i: usize = 0;
    while i < 17
        invariant
            i <= 17,
            chars@ == id@,
            chars@.len() == 18,
            digits@ == leading_digit_values(id@, i as int),
            forall|j: int| 0 <= j < i ==> is_ascii_digit(#[trigger] id@[j]),
        decreases 17 - i,
    {
        let c = chars[i];
        if !('0' <= c && c <= '9') {
            return false;
        }
        digits.push(c as u32 - '0' as u32);
        assert(digits@ == leading_digit_values(id@, i + 1));
        i = i + 1;
    }
    let sum = weighted_sum_exec(&digits, &weights, 17);
    let expected = check_chars[(sum % 11) as usize];
    assert(expected == cn_check_chars()[weighted_sum(leading_digit_values(id@, 17), cn_weights(), 17) % 11]);
    let c17 = chars[17];
    assert(c17 == id@[17]);
    let last = c17 as u32;
    let upper = if 97 <= last && last <= 122 {
        last - 32
    } else {
        last
    };
    upper == expected as u32
}

// ---------------------------------------------------------------------------
// German tax identification number (Steuer-ID)
// ---------------------------------------------------------------------------

/// The running product of the ISO 7064 MOD 11,10 scheme after `k` digits.
pub open spec fn de_product(d: Seq<u32>, k: int) -> int
    decreases k,
{
    if k <= 0 {
        10
    } else {
        let total = (d[k - 1] + de_product(d, k - 1)) % 10;
        let total = if total == 0 {
            10
        } else {
            total
        };
        (total * 2) % 11
    }
}

/// Eleven digits, a non-zero first digit, not all of the first ten equal,
/// and a last digit equal to the check digit of the first ten.
pub open spec fn de_tax_id_valid(s: Seq<char>) -> bool {
    let d = digit_values(s);
    &&& d.len() == 11
    &&& d[0] != 0
    &&& !(forall|i: int| 0 <= i < 10 ==> #[trigger] d[i] == d[0])
    &&& (if 11 - de_product(d, 10) == 10 {
        0
    } else {
        11 - de_product(d, 10)
    }) == d[10]
}

/// Checks a German tax identification number; non-digits are ignored.
pub fn de_tax_id_check(id: &str) -> (res: bool)
    ensures
        res == de_tax_id_valid(id@),
{
    let digits = digits_of(id);
    if digits.len() != 11 || digits[0] == 0 {
        return false;
    }
    let mut all_same = true;
    let mut i: usize = 1;
    while i < 10
        invariant
            1 <= i <= 10,
            digits@.len() == 11,
            all_same <==> (forall|j: int| 0 <= j < i ==> #[trigger] digits@[j] == digits@[0]),
        decreases 10 - i,
    {
        if digits[i] != digits[0] {
            all_same = false;
        }
        i = i + 1;
    }
    if all_same {
        return false;
    }
    let mut product: u32 = 10;
    let mut i: usize = 0;
    while i < 10
        invariant
            i <= 10,
            digits@.len() == 11,
            digits@ == digit_values(id@),
            forall|j: int| 0 <= j < digits@.len() ==> digits@[j] <= 9,
            product as int == de_product(digits@, i as int),
            product <= 10,
        decreases 10 - i,
    {
        let total = (digits[i] + product) % 10;
        let total = if total == 0 {
            10
        } else {
            total
        };
        product = (total * 2) % 11;
        i = i + 1;
    }
    let check = if 11 - product == 10 {
        0
    } else {
        11 - product
    };
    check == digits[10]
}

// ---------------------------------------------------------------------------
// Australian identifiers
// ---------------------------------------------------------------------------

/// Weights of the eleven ABN digits.
pub open spec fn abn_weights() -> Seq<u32> {
    seq![10, 1, 3, 5, 7, 9, 11, 13, 15, 17, 19]
}

/// The ABN sum: the weighted sum after one is taken from the first digit.
pub open spec fn abn_sum(d: Seq<u32>) -> int {
    weighted_sum(d, abn_weights(), 11) - 10
}

/// Eleven digits whose ABN sum is a multiple of 89.
pub open spec fn au_abn_valid(s: Seq<char>) -> bool {
    digit_values(s).len() == 11 && abn_sum(digit_values(s)) % 89 == 0
}

/// Checks an Australian Business Number; non-digits are ignored.
pub fn au_abn_check(abn: &str) -> (res: bool)
    ensures
        res == au_abn_valid(abn@),
{
    let digits = digits_of(abn);
    if digits.len() != 11 {
        return false;
    }
    let weights: [u32; 11] = [10, 1, 3, 5, 7, 9, 11, 13, 15, 17, 19];
    assert(weights@ == abn_weights());
    let total = weighted_sum_exec(&digits, &weights, 11);
    if total < 10 {
        assert((total as int - 10) % 89 != 0);
        false
    } else {
        (total - 10) % 89 == 0
    }
}

/// Weights of the nine TFN digits.
pub open spec fn tfn_weights() -> Seq<u32> {
    seq![1, 4, 3, 7, 5, 8, 6, 9, 10]
}

/// Nine digits whose weighted sum is a multiple of 11.
pub open spec fn au_tfn_valid(s: Seq<char>) -> bool {
    digit_values(s).len() == 9 && weighted_sum(digit_values(s), tfn_weights(), 9) % 11 == 0
}

/// Checks an Australian Tax File Number; non-digits are ignored.
pub fn au_tfn_check(tfn: &str) -> (res: bool)
    ensures
        res == au_tfn_valid(tfn@),
{
    let digits = digits_of(tfn);
    if digits.len() != 9 {
        return false;
    }
    let weights: [u32; 9] = [1, 4, 3, 7, 5, 8, 6, 9, 10];
    assert(weights@ == tfn_weights());
    let sum = weighted_sum_exec(&digits, &weights, 9);
    sum % 11 == 0
}

/// Weights of the first eight ACN digits.
pub open spec fn acn_weights() -> Seq<u32> {
    seq![8, 7, 6, 5, 4, 3, 2, 1]
}

/// Nine digits whose last digit is the ACN complement check digit of the first eight.
pub open spec fn au_acn_valid(s: Seq<char>) -> bool {
    let d = digit_values(s);
    d.len() == 9 && (10 - weighted_sum(d, acn_weights(), 8) % 10) % 10 == d[8]
}

/// Checks an Australian Company Number; non-digits are ignored.
pub fn au_acn_check(acn: &str) -> (res: bool)
    ensures
        res == au_acn_valid(acn@),
{
    let digits = digits_of(acn);
    if digits.len() != 9 {
        return false;
    }
    let weights: [u32; 8] = [8, 7, 6, 5, 4, 3, 2, 1];
    assert(weights@ == acn_weights());
    let sum = weighted_sum_exec(&digits, &weights, 8);
    let check = (10 - (sum % 10)) % 10;
    check == digits[8] as u64
}

/// Weights of the first eight Medicare digits.
pub open spec fn medicare_weights() -> Seq<u32> {
    seq![1, 3, 7, 9, 1, 3, 7, 9]
}

/// Ten or eleven digits, a first digit from 2 to 6, and a ninth digit equal
/// to the weighted sum of the first eight modulo 10.
pub open spec fn au_medicare_valid(s: Seq<char>) -> bool {
    let d = digit_values(s);
    &&& 10 <= d.len() <= 11
    &&& 2 <= d[0] <= 6
    &&& weighted_sum(d, medicare_weights(), 8) % 10 == d[8]
}

/// Checks an Australian Medicare card number; non-digits are ignored.
pub fn au_medicare_check(medicare: &str) -> (res: bool)
    ensures
        res == au_medicare_valid(medicare@),
{
    let digits = digits_of(medicare);
    if digits.len() < 10 || digits.len() > 11 {
        return false;
    }
    if digits[0] < 2 || digits[0] > 6 {
        return false;
    }
    let weights: [u32; 8] = [1, 3, 7, 9, 1, 3, 7, 9];
    assert(weights@ == medicare_weights());
    let sum = weighted_sum_exec(&digits, &weights, 8);
    sum % 10 == digits[8] as u64
}

// ---------------------------------------------------------------------------
// IBAN (ISO 13616, MOD 97-10)
// ---------------------------------------------------------------------------

/// The characters of an IBAN once whitespace and hyphens are removed.
pub open spec fn iban_cleaned(s: Seq<char>) -> Seq<char>
    decreases s.len(),
{
    if s.len() == 0 {
        seq![]
    } else if is_unicode_whitespace(s.last()) || s.last() == '-' {
        iban_cleaned(s.drop_last())
    } else {
        iban_cleaned(s.drop_last()).push(s.last())
    }
}

/// The decimal digits of `n`, most significant first.
pub open spec fn decimal_digits(n: nat) -> Seq<u32>
    decreases n,
{
    if n < 10 {
        seq![n as u32]
    } else {
        decimal_digits(n / 10).push((n % 10) as u32)
    }
}

/// The digits that stand for one IBAN character: a digit for itself, any
/// other character for its code point minus 55 (so `A` is 10, `Z` is 35).
pub open spec fn iban_char_digits(c: char) -> Seq<u32> {
    if is_ascii_digit(c) {
        seq![digit_value(c)]
    } else {
        decimal_digits((c as u32 - 55) as nat)
    }
}

/// The digit string that stands for a sequence of IBAN characters.
pub open spec fn iban_numeric(s: Seq<char>) -> Seq<u32>
    decreases s.len(),
{
    if s.len() == 0 {
        seq![]
    } else {
        iban_numeric(s.drop_last()) + iban_char_digits(s.last())
    }
}

/// The number written by a sequence of decimal digits.
pub open spec fn digits_number(d: Seq<u32>) -> nat
    decreases d.len(),
{
    if d.len() == 0 {
        0
    } else {
        digits_number(d.drop_last()) * 10 + d.last() as nat
    }
}

/// The IBAN with its first four bytes moved to the end.
pub open spec fn iban_rearranged(s: Seq<char>) -> Seq<char> {
    let b = encode_utf8(iban_cleaned(s));
    decode_utf8(b.subrange(4, b.len() as int)) + decode_utf8(b.subrange(0, 4))
}

/// An IBAN is valid when its cleaned form is 5 to 34 bytes long and the
/// rearranged digit string is 1 modulo 97.
pub open spec fn iban_valid(s: Seq<char>) -> bool {
    let b = encode_utf8(iban_cleaned(s));
    &&& 5 <= b.len() <= 34
    &&& digits_number(iban_numeric(iban_rearranged(s))) % 97 == 1
}

/// The inputs on which the IBAN check runs to completion: when the length
/// is in range, the first four bytes end on a character boundary and every
/// cleaned character is a digit or lies at or above `A`.
pub open spec fn iban_checkable(s: Seq<char>) -> bool {
    let c = iban_cleaned(s);
    let b = encode_utf8(c);
    5 <= b.len() <= 34 ==> {
        &&& is_char_boundary(b, 4)
        &&& forall|i: int| 0 <= i < c.len() ==> is_ascii_digit(#[trigger] c[i]) || c[i] as u32 >= 65
    }
}

proof fn lemma_mod97_step(x: int, d: int)
    requires
        x >= 0,
        d >= 0,
    ensures
        (x * 10 + d) % 97 == ((x % 97) * 10 + d) % 97,
{
    vstd::arithmetic::div_mod::lemma_mul_mod_noop_left(x, 10, 97);
    vstd::arithmetic::div_mod::lemma_add_mod_noop(x * 10, d, 97);
    vstd::arithmetic::div_mod::lemma_add_mod_noop((x % 97) * 10, d, 97);
    assert(((x % 97) * 10) % 97 == (x * 10) % 97);
}

/// Appends the decimal digits of `v` to `out`.
fn push_decimal_digits(v: u32, out: &mut Vec<u32>)
    ensures
        final(out)@ == old(out)@ + decimal_digits(v as nat),
    decreases v,
{
    if v >= 10 {
        push_decimal_digits(v / 10, out);
    }
    let ghost before = out@;
    out.push(v % 10);
    proof {
        if v >= 10 {
            assert(decimal_digits(v as nat) == decimal_digits((v / 10) as nat).push((v % 10) as u32));
        }
    }
}

/// Checks the MOD 97-10 checksum of an IBAN; whitespace and hyphens are ignored.
pub fn iban_check(iban: &str) -> (res: bool)
    requires
        iban_checkable(iban@),
    ensures
        res == iban_valid(iban@),
{
    let chars = chars_of(iban);
    let mut cleaned = String::new();
    let mut i: usize = 0;
    while i < chars.len()
        invariant
            i <= chars@.len(),
            chars@ == iban@,
            cleaned@ == iban_cleaned(chars@.take(i as int)),
        decreases chars@.len() - i,
    {
        let c = chars[i];
        assert(chars@.take(i + 1).drop_last() == chars@.take(i as int));
        if !(is_whitespace(c) || c == '-') {
            push_char(&mut cleaned, c);
        }
        i = i + 1;
    }
    assert(chars@.take(chars@.len() as int) == chars@);
    let ghost c = iban_cleaned(iban@);
    let ghost b = encode_utf8(c);
    let cs = cleaned.as_str();
    assert(cs@ == c);
    assert(cs.spec_bytes() == b);
    let byte_len = cs.as_bytes().len();
    if byte_len < 5 || byte_len > 34 {
        return false;
    }
    assert(5 <= b.len() <= 34);
    assert(is_char_boundary(b, 4));
    let (head, tail) = cs.split_at(4);
    proof {
        vstd::utf8::encode_utf8_decode_utf8(head@);
        vstd::utf8::encode_utf8_decode_utf8(tail@);
    }
    let mut rearranged = chars_of(tail);
    let head_chars = chars_of(head);
    let mut k: usize = 0;
    while k < head_chars.len()
        invariant
            k <= head_chars@.len(),
            rearranged@ == tail@ + head_chars@.take(k as int),
        decreases head_chars@.len() - k,
    {
        rearranged.push(head_chars[k]);
        assert(head_chars@.take(k + 1) == head_chars@.take(k as int).push(head_chars@[k as int]));
        k = k + 1;
    }
    assert(head_chars@.take(head_chars@.len() as int) == head_chars@);
    assert(rearranged@ == iban_rearranged(iban@));
    proof {
        // every rearranged character comes from the cleaned IBAN
        vstd::utf8::encode_utf8_valid_utf8(c);
        vstd::utf8::decode_utf8_split(b, 4);
        vstd::utf8::encode_utf8_decode_utf8(c);
        assert(b.subrange(0, b.len() as int) == b);
        assert(c == decode_utf8(b.subrange(0, 4)) + decode_utf8(b.subrange(4, b.len() as int)));
        assert forall|j: int| 0 <= j < rearranged@.len() implies is_ascii_digit(
            #[trigger] rearranged@[j],
        ) || rearranged@[j] as u32 >= 65 by {
            let h = decode_utf8(b.subrange(0, 4));
            let t = decode_utf8(b.subrange(4, b.len() as int));
            if j < t.len() {
                assert(rearranged@[j] == c[h.len() + j]);
            } else {
                assert(rearranged@[j] == c[j - t.len()]);
            }
        }
    }
    let mut numeric: Vec<u32> = Vec::new();
    let mut remainder: u32 = 0;
    let mut j: usize = 0;
    while j < rearranged.len()
        invariant
            j <= rearranged@.len(),
            forall|m: int| 0 <= m < rearranged@.len() ==> is_ascii_digit(#[trigger] rearranged@[m])
                || rearranged@[m] as u32 >= 65,
            numeric@ == iban_numeric(rearranged@.take(j as int)),
            remainder as int == digits_number(numeric@) % 97,
        decreases rearranged@.len() - j,
    {
        let ch = rearranged[j];
        assert(rearranged@.take(j + 1).drop_last() == rearranged@.take(j as int));
        let ghost before = numeric@;
        let mut piece: Vec<u32> = Vec::new();
        if '0' <= ch && ch <= '9' {
            piece.push(ch as u32 - '0' as u32);
        } else {
            push_decimal_digits(ch as u32 - 55, &mut piece);
        }
        assert(piece@ == iban_char_digits(ch));
        let mut p: usize = 0;
        while p < piece.len()
            invariant
                p <= piece@.len(),
                numeric@ == before + piece@.take(p as int),
                remainder as int == digits_number(numeric@) % 97,
            decreases piece@.len() - p,
        {
            let dgt = piece[p];
            proof {
                lemma_mod97_step(digits_number(numeric@) as int, dgt as int);
            }
            assert(remainder < 97);
            remainder = ((remainder as u64 * 10 + dgt as u64) % 97) as u32;
            numeric.push(dgt);
            assert(numeric@.drop_last() == before + piece@.take(p as int));
            assert(piece@.take(p + 1) == piece@.take(p as int).push(dgt));
            p = p + 1;
        }
        assert(piece@.take(piece@.len() as int) == piece@);
        j = j + 1;
    }
    assert(rearranged@.take(rearranged@.len() as int) == rearranged@);
    remainder == 1
}

} // verus!
