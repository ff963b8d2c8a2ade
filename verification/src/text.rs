//! Character-level helpers shared by the detectors, the anonymizer and the vault.
use vstd::prelude::*;
use vstd::utf8::{
    decode_utf8, encode_scalar, encode_utf8, encode_utf8_decode_utf8, encode_utf8_first_scalar,
    encode_utf8_valid_utf8, is_char_boundary, is_char_boundary_iff_not_is_continuation_byte,
    is_char_boundary_start_end_of_seq, pop_first_scalar, valid_utf8, valid_utf8_split,
};
use vstd::string::{StringExecFns, StringSliceAdditionalSpecFns};

verus! {

/// Appends one character to a string, by `String::push`.
/// Trusted: the standard library documents that `push` appends the given
/// character to the end of the string.
#[verifier::external_body]
pub(crate) fn push_char(s: &mut String, c: char)
    ensures
        final(s)@ == old(s)@.push(c),
{
    s.push(c);
}

/// The characters of a string, in order.
pub fn chars_of(s: &str) -> (res: Vec<char>)
    ensures
        res@ == s@,
{
    let mut res: Vec<char> = Vec::new();
    for c in it: s.chars()
        invariant
            res@ == it.seq().take(it.index() as int),
    {
        res.push(c);
    }
    res
}

/// An owned copy of a string slice.
pub fn owned(s: &str) -> (res: String)
    ensures
        res@ == s@,
{
    s.to_owned()
}

/// Appends a string slice.
pub fn append_str(s: &mut String, t: &str)
    ensures
        final(s)@ == old(s)@ + t@,
{
    s.append(t);
}

/// The string made of the given characters.
pub fn string_from_chars(v: &Vec<char>) -> (res: String)
    ensures
        res@ == v@,
{
    let mut res = String::new();
    let mut i: usize = 0;
    while i < v.len()
        invariant
            i <= v@.len(),
            res@ == v@.take(i as int),
        decreases v@.len() - i,
    {
        push_char(&mut res, v[i]);
        assert(v@.take(i + 1) == v@.take(i as int).push(v@[i as int]));
        i = i + 1;
    }
    assert(v@.take(v@.len() as int) == v@);
    res
}

/// `start..end` is a byte range of `s` that can be sliced: in bounds, in
/// order, and with both ends on character boundaries of its UTF-8 encoding.
pub open spec fn is_byte_range(s: Seq<char>, start: int, end: int) -> bool {
    let b = encode_utf8(s);
    &&& 0 <= start <= end <= b.len()
    &&& is_char_boundary(b, start)
    &&& is_char_boundary(b, end)
}

/// The characters of `s` whose UTF-8 encoding lies in the byte range `start..end`.
pub open spec fn byte_range(s: Seq<char>, start: int, end: int) -> Seq<char> {
    decode_utf8(encode_utf8(s).subrange(start, end))
}

/// The length of the UTF-8 encoding of `s`.
pub open spec fn byte_len(s: Seq<char>) -> int {
    encode_utf8(s).len() as int
}

/// The encoding of a concatenation is the concatenation of the encodings.
pub proof fn lemma_encode_concat(a: Seq<char>, b: Seq<char>)
    ensures
        encode_utf8(a + b) == encode_utf8(a) + encode_utf8(b),
    decreases a.len(),
{
    if a.len() == 0 {
        assert(a + b =~= b);
        assert(encode_utf8(a) =~= Seq::<u8>::empty());
        assert(Seq::<u8>::empty() + encode_utf8(b) =~= encode_utf8(b));
    } else {
        assert((a + b)[0] == a[0]);
        assert((a + b).drop_first() =~= a.drop_first() + b);
        lemma_encode_concat(a.drop_first(), b);
        let w = encode_scalar(a[0] as u32);
        assert(w + (encode_utf8(a.drop_first()) + encode_utf8(b)) =~= (w + encode_utf8(
            a.drop_first(),
        )) + encode_utf8(b));
    }
}

/// Every character takes at least one byte.
pub proof fn lemma_byte_len_ge(s: Seq<char>)
    ensures
        byte_len(s) >= s.len(),
    decreases s.len(),
{
    if s.len() > 0 {
        lemma_byte_len_ge(s.drop_first());
    }
}

/// The encoded lengths of longer prefixes are longer.
pub proof fn lemma_prefix_len_grows(s: Seq<char>, i: int, j: int)
    requires
        0 <= i <= j <= s.len(),
    ensures
        byte_len(s.take(j)) == byte_len(s.take(i)) + byte_len(s.subrange(i, j)),
        byte_len(s.take(j)) >= byte_len(s.take(i)) + (j - i),
{
    assert(s.take(j) =~= s.take(i) + s.subrange(i, j));
    lemma_encode_concat(s.take(i), s.subrange(i, j));
    lemma_byte_len_ge(s.subrange(i, j));
}

/// A character boundary of the encoding of `s` is the encoded length of a
/// prefix of `s`.
pub proof fn lemma_boundary_index(s: Seq<char>, p: int) -> (i: int)
    requires
        is_char_boundary(encode_utf8(s), p),
    ensures
        0 <= i <= s.len(),
        byte_len(s.take(i)) == p,
    decreases s.len(),
{
    encode_utf8_valid_utf8(s);
    if p == 0 {
        assert(s.take(0) =~= Seq::<char>::empty());
        assert(encode_utf8(s.take(0)) =~= Seq::<u8>::empty());
        0
    } else {
        let b = encode_utf8(s);
        assert(s.len() > 0) by {
            if s.len() == 0 {
                assert(b =~= Seq::<u8>::empty());
            }
        }
        encode_utf8_first_scalar(s);
        let w = encode_scalar(s[0] as u32);
        assert(pop_first_scalar(b) =~= encode_utf8(s.drop_first()));
        let i2 = lemma_boundary_index(s.drop_first(), p - w.len());
        assert(s.take(i2 + 1) =~= seq![s[0]] + s.drop_first().take(i2));
        lemma_encode_concat(seq![s[0]], s.drop_first().take(i2));
        let one = seq![s[0]];
        assert(one[0] == s[0]);
        assert(one.drop_first() =~= Seq::<char>::empty());
        assert(encode_utf8(one.drop_first()) =~= Seq::<u8>::empty());
        assert(encode_utf8(one) == w + encode_utf8(one.drop_first()));
        assert(encode_utf8(one) =~= w);
        i2 + 1
    }
}

/// The bytes between the encoded lengths of two prefixes decode to the
/// characters between them.
pub proof fn lemma_byte_range_chars(s: Seq<char>, i: int, j: int)
    requires
        0 <= i <= j <= s.len(),
    ensures
        byte_range(s, byte_len(s.take(i)), byte_len(s.take(j))) == s.subrange(i, j),
{
    let a = s.take(i);
    let m = s.subrange(i, j);
    let c = s.skip(j);
    assert(s =~= a + m + c);
    lemma_encode_concat(a + m, c);
    lemma_encode_concat(a, m);
    assert(s.take(j) =~= a + m);
    let b = encode_utf8(s);
    assert(b.subrange(encode_utf8(a).len() as int, (encode_utf8(a).len() + encode_utf8(m).len()) as int)
        =~= encode_utf8(m));
    encode_utf8_decode_utf8(m);
}

proof fn lemma_boundary_prefix(b: Seq<u8>, end: int, i: int)
    requires
        valid_utf8(b),
        0 <= i <= end <= b.len(),
        is_char_boundary(b, end),
        is_char_boundary(b, i),
    ensures
        valid_utf8(b.subrange(0, end)),
        is_char_boundary(b.subrange(0, end), i),
{
    let p = b.subrange(0, end);
    valid_utf8_split(b, end);
    if i == end {
        is_char_boundary_start_end_of_seq(p);
    } else {
        is_char_boundary_iff_not_is_continuation_byte(b, i);
        is_char_boundary_iff_not_is_continuation_byte(p, i);
    }
}

/// The length of the UTF-8 encoding of `s`, as `str::len` counts it.
pub fn str_byte_len(s: &str) -> (n: usize)
    ensures
        n == byte_len(s@),
{
    s.as_bytes().len()
}

/// Whether `start..end` is a byte range of `s` that can be sliced.
pub fn check_byte_range(s: &str, start: usize, end: usize) -> (res: bool)
    ensures
        res == is_byte_range(s@, start as int, end as int),
{
    let n = str_byte_len(s);
    start <= end && end <= n && s.is_char_boundary(start) && s.is_char_boundary(end)
}

/// The slice `&s[start..end]`.
pub fn slice_bytes<'a>(s: &'a str, start: usize, end: usize) -> (res: &'a str)
    requires
        is_byte_range(s@, start as int, end as int),
    ensures
        res@ == byte_range(s@, start as int, end as int),
{
    let ghost b = encode_utf8(s@);
    proof {
        encode_utf8_valid_utf8(s@);
        lemma_boundary_prefix(b, end as int, start as int);
    }
    let (pre, _) = s.split_at(end);
    assert(pre.spec_bytes() == b.subrange(0, end as int));
    let (_, mid) = pre.split_at(start);
    assert(mid.spec_bytes() =~= b.subrange(start as int, end as int));
    proof {
        encode_utf8_decode_utf8(mid@);
    }
    mid
}

/// Whether a character is one of the ASCII digits `0` to `9`.
pub open spec fn is_ascii_digit(c: char) -> bool {
    '0' <= c && c <= '9'
}

/// The numeric value of an ASCII digit.
pub open spec fn digit_value(c: char) -> u32 {
    (c as u32 - '0' as u32) as u32
}

/// The values of the ASCII digits of `s`, in order; other characters are skipped.
pub open spec fn digit_values(s: Seq<char>) -> Seq<u32>
    decreases s.len(),
{
    if s.len() == 0 {
        seq![]
    } else if is_ascii_digit(s.last()) {
        digit_values(s.drop_last()).push(digit_value(s.last()))
    } else {
        digit_values(s.drop_last())
    }
}

/// Collects the values of the ASCII digits of `s`, in order.
pub fn digits_of(s: &str) -> (res: Vec<u32>)
    ensures
        res@ == digit_values(s@),
        forall|i: int| 0 <= i < res@.len() ==> res@[i] <= 9,
{
    let chars = chars_of(s);
    let mut res: Vec<u32> = Vec::new();
    let mut i: usize = 0;
    while i < chars.len()
        invariant
            i <= chars@.len(),
            chars@ == s@,
            res@ == digit_values(chars@.take(i as int)),
            forall|j: int| 0 <= j < res@.len() ==> res@[j] <= 9,
        decreases chars@.len() - i,
    {
        let c = chars[i];
        assert(chars@.take(i + 1).drop_last() == chars@.take(i as int));
        if '0' <= c && c <= '9' {
            res.push(c as u32 - '0' as u32);
        }
        i = i + 1;
    }
    assert(chars@.take(chars@.len() as int) == chars@);
    res
}

/// Whether `c` has the Unicode `White_Space` property (the set that
/// `char::is_whitespace` recognises).
pub open spec fn is_unicode_whitespace(c: char) -> bool {
    let u = c as u32;
    ||| 0x9 <= u <= 0xD
    ||| u == 0x20
    ||| u == 0x85
    ||| u == 0xA0
    ||| u == 0x1680
    ||| 0x2000 <= u <= 0x200A
    ||| u == 0x2028
    ||| u == 0x2029
    ||| u == 0x202F
    ||| u == 0x205F
    ||| u == 0x3000
}

/// Decides `is_unicode_whitespace`.
pub fn is_whitespace(c: char) -> (res: bool)
    ensures
        res == is_unicode_whitespace(c),
{
    let u = c as u32;
    (0x9 <= u && u <= 0xD) || u == 0x20 || u == 0x85 || u == 0xA0 || u == 0x1680 || (0x2000 <= u
        && u <= 0x200A) || u == 0x2028 || u == 0x2029 || u == 0x202F || u == 0x205F || u == 0x3000
}

// ---------------------------------------------------------------------------
// Case mapping (Unicode, by the standard library)
// ---------------------------------------------------------------------------

/// The Unicode uppercase mapping of a string, as `str::to_uppercase` computes it.
pub uninterp spec fn unicode_uppercase(s: Seq<char>) -> Seq<char>;

/// The Unicode lowercase mapping of a string, as `str::to_lowercase` computes it.
pub uninterp spec fn unicode_lowercase(s: Seq<char>) -> Seq<char>;

/// Uppercases a string with `str::to_uppercase`.
/// Trusted: the result depends on the argument alone (the Unicode case
/// tables compiled into the standard library); what it is, is left to the
/// name `unicode_uppercase`.
#[verifier::external_body]
pub(crate) fn to_uppercase(s: &str) -> (res: String)
    ensures
        res@ == unicode_uppercase(s@),
{
    s.to_uppercase()
}

/// Lowercases a string with `str::to_lowercase`.
/// Trusted: the result depends on the argument alone; what it is, is left
/// to the name `unicode_lowercase`.
#[verifier::external_body]
pub(crate) fn to_lowercase(s: &str) -> (res: String)
    ensures
        res@ == unicode_lowercase(s@),
{
    s.to_lowercase()
}

// ---------------------------------------------------------------------------
// Hexadecimal
// ---------------------------------------------------------------------------

/// The lowercase hexadecimal digit for `d < 16`.
pub open spec fn hex_char(d: nat) -> char {
    if d < 10 {
        ('0' as u32 + d) as char
    } else {
        ('a' as u32 + d - 10) as char
    }
}

/// The last `n` hexadecimal digits of `v`, zero-padded, most significant first.
pub open spec fn hex_fixed(v: nat, n: nat) -> Seq<char>
    decreases n,
{
    if n == 0 {
        seq![]
    } else {
        hex_fixed(v / 16, (n - 1) as nat).push(hex_char(v % 16))
    }
}

/// The lowercase hexadecimal digit for `d < 16`.
fn hex_digit(d: u32) -> (c: char)
    requires
        d < 16,
    ensures
        c == hex_char(d as nat),
{
    let table: [char; 16] = [
        '0', '1', '2', '3', '4', '5', '6', '7', '8', '9', 'a', 'b', 'c', 'd', 'e', 'f',
    ];
    assert(table@ =~= Seq::new(16, |i: int| hex_char(i as nat)));
    table[d as usize]
}

/// Appends the last `n` hexadecimal digits of `v`, zero-padded (as `{:0nx}` writes them for `n` digits).
pub fn push_hex(s: &mut String, v: u32, n: usize)
    requires
        n <= 8,
    ensures
        final(s)@ == old(s)@ + hex_fixed(v as nat, n as nat),
    decreases n,
{
    if n > 0 {
        push_hex(s, v / 16, n - 1);
        push_char(s, hex_digit(v % 16));
    }
}

// ---------------------------------------------------------------------------
// FNV-1a, 32 bits
// ---------------------------------------------------------------------------

/// The FNV-1a 32-bit hash of a byte sequence.
pub open spec fn fnv1a(bytes: Seq<u8>) -> u32
    decreases bytes.len(),
{
    if bytes.len() == 0 {
        0x811c9dc5
    } else {
        (((fnv1a(bytes.drop_last()) ^ (bytes.last() as u32)) as nat * 0x01000193) % 0x1_0000_0000) as u32
    }
}

/// Hashes the UTF-8 bytes of `s` with FNV-1a (32 bits).
pub fn fnv1a_str(s: &str) -> (h: u32)
    ensures
        h == fnv1a(encode_utf8(s@)),
{
    let bytes = s.as_bytes();
    let mut h: u32 = 0x811c9dc5;
    let mut i: usize = 0;
    while i < bytes.len()
        invariant
            i <= bytes@.len(),
            bytes@ == encode_utf8(s@),
            h == fnv1a(bytes@.take(i as int)),
        decreases bytes@.len() - i,
    {
        assert(bytes@.take(i + 1).drop_last() == bytes@.take(i as int));
        h = (h ^ bytes[i] as u32).wrapping_mul(0x01000193);
        i = i + 1;
    }
    assert(bytes@.take(bytes@.len() as int) == bytes@);
    h
}

// ---------------------------------------------------------------------------
// Substrings
// ---------------------------------------------------------------------------

/// Whether `pat` occurs in `s` at position `i`.
pub open spec fn occurs_at(s: Seq<char>, pat: Seq<char>, i: int) -> bool {
    0 <= i && i + pat.len() <= s.len() && s.subrange(i, i + pat.len()) == pat
}

/// Whether `pat` occurs anywhere in `s` (the empty pattern always does).
pub open spec fn contains_seq(s: Seq<char>, pat: Seq<char>) -> bool {
    exists|i: int| occurs_at(s, pat, i)
}

fn occurs_at_exec(s: &Vec<char>, pat: &Vec<char>, i: usize) -> (res: bool)
    requires
        i <= s@.len(),
    ensures
        res == occurs_at(s@, pat@, i as int),
{
    if pat.len() > s.len() - i {
        return false;
    }
    let slen = s.len();
    let mut k: usize = 0;
    while k < pat.len()
        invariant
            k <= pat@.len(),
            slen == s@.len(),
            i <= s@.len(),
            i + pat@.len() <= s@.len(),
            forall|j: int| 0 <= j < k ==> s@[i + j] == pat@[j],
        decreases pat@.len() - k,
    {
        if s[i + k] != pat[k] {
            assert(s@.subrange(i as int, i + pat@.len())[k as int] != pat@[k as int]);
            return false;
        }
        k = k + 1;
    }
    assert(s@.subrange(i as int, i + pat@.len()) =~= pat@);
    true
}

/// Whether `pat` occurs in `s`, as `str::contains` decides it.
pub fn contains_chars(s: &Vec<char>, pat: &Vec<char>) -> (res: bool)
    ensures
        res == contains_seq(s@, pat@),
{
    let mut i: usize = 0;
    while i < s.len()
        invariant
            i <= s@.len(),
            forall|j: int| 0 <= j < i ==> !occurs_at(s@, pat@, j),
        decreases s@.len() - i,
    {
        if occurs_at_exec(s, pat, i) {
            return true;
        }
        i = i + 1;
    }
    if occurs_at_exec(s, pat, s.len()) {
        return true;
    }
    false
}

/// `s` with every non-overlapping occurrence of `pat`, found left to right,
/// replaced by `rep`, as `str::replace` computes it. An empty pattern
/// matches before every character and at the end.
pub open spec fn replace_all(s: Seq<char>, pat: Seq<char>, rep: Seq<char>) -> Seq<char>
    decreases s.len(),
{
    if pat.len() == 0 {
        if s.len() == 0 {
            rep
        } else {
            rep + seq![s[0]] + replace_all(s.drop_first(), pat, rep)
        }
    } else if s.len() >= pat.len() && s.take(pat.len() as int) == pat {
        rep + replace_all(s.skip(pat.len() as int), pat, rep)
    } else if s.len() == 0 {
        seq![]
    } else {
        seq![s[0]] + replace_all(s.drop_first(), pat, rep)
    }
}

/// Replaces every occurrence of `pat` in `s` by `rep`, as `str::replace` does.
pub fn replace_chars(s: &Vec<char>, pat: &Vec<char>, rep: &Vec<char>) -> (res: Vec<char>)
    ensures
        res@ == replace_all(s@, pat@, rep@),
{
    let mut out: Vec<char> = Vec::new();
    let mut i: usize = 0;
    let n = s.len();
    assert(s@.skip(0) == s@);
    while i < n || (pat.len() == 0 && i == n)
        invariant
            i <= n,
            n == s@.len(),
            out@ + replace_all(s@.skip(i as int), pat@, rep@) == replace_all(s@, pat@, rep@),
        decreases n - i, (if pat@.len() == 0 && i == n { 1int } else { 0int }),
    {
        let ghost rest = s@.skip(i as int);
        if pat.len() == 0 {
            let mut k: usize = 0;
            let ghost before = out@;
            while k < rep.len()
                invariant
                    k <= rep@.len(),
                    out@ == before + rep@.take(k as int),
                decreases rep@.len() - k,
            {
                out.push(rep[k]);
                assert(rep@.take(k + 1) == rep@.take(k as int).push(rep@[k as int]));
                k = k + 1;
            }
            assert(rep@.take(rep@.len() as int) == rep@);
            if i == n {
                assert(rest.len() == 0);
                assert(out@ == before + replace_all(rest, pat@, rep@));
                assert(s@.skip(i as int) == rest);
                return out;
            }
            out.push(s[i]);
            assert(rest.drop_first() == s@.skip(i + 1));
            assert(rest[0] == s@[i as int]);
            assert(out@ + replace_all(s@.skip(i + 1), pat@, rep@) == before + replace_all(rest, pat@, rep@));
            i = i + 1;
        } else if occurs_at_exec(s, pat, i) {
            let ghost before = out@;
            let mut k: usize = 0;
            while k < rep.len()
                invariant
                    k <= rep@.len(),
                    out@ == before + rep@.take(k as int),
                decreases rep@.len() - k,
            {
                out.push(rep[k]);
                assert(rep@.take(k + 1) == rep@.take(k as int).push(rep@[k as int]));
                k = k + 1;
            }
            assert(rep@.take(rep@.len() as int) == rep@);
            assert(rest.take(pat@.len() as int) == s@.subrange(i as int, i + pat@.len()));
            assert(rest.skip(pat@.len() as int) == s@.skip(i + pat@.len()));
            i = i + pat.len();
        } else {
            let ghost before = out@;
            assert(!(rest.len() >= pat@.len() && rest.take(pat@.len() as int) == pat@)) by {
                if rest.len() >= pat@.len() && rest.take(pat@.len() as int) == pat@ {
                    assert(s@.subrange(i as int, i + pat@.len()) == rest.take(pat@.len() as int));
                }
            }
            out.push(s[i]);
            assert(rest.drop_first() == s@.skip(i + 1));
            assert(rest[0] == s@[i as int]);
            i = i + 1;
        }
    }
    assert(s@.skip(n as int).len() == 0);
    out
}

// ---------------------------------------------------------------------------
// Decimal
// ---------------------------------------------------------------------------

/// The decimal digit character for `d < 10`.
pub open spec fn decimal_char(d: nat) -> char {
    ('0' as u32 + d) as char
}

/// The decimal representation of `n`, without leading zeros.
pub open spec fn decimal_text(n: nat) -> Seq<char>
    decreases n,
{
    if n < 10 {
        seq![decimal_char(n)]
    } else {
        decimal_text(n / 10).push(decimal_char(n % 10))
    }
}

/// The decimal representation of `n`, left-padded with zeros to at least `w` characters.
pub open spec fn decimal_padded(n: nat, w: nat) -> Seq<char> {
    let t = decimal_text(n);
    if t.len() < w {
        Seq::new((w - t.len()) as nat, |i: int| '0') + t
    } else {
        t
    }
}

/// `10^k`.
pub open spec fn pow10(k: nat) -> nat
    decreases k,
{
    if k == 0 {
        1
    } else {
        10 * pow10((k - 1) as nat)
    }
}

proof fn lemma_decimal_text_bound(n: nat, k: nat)
    requires
        n < pow10(k),
        k >= 1,
    ensures
        decimal_text(n).len() <= k,
    decreases k,
{
    if n >= 10 {
        lemma_decimal_text_bound(n / 10, (k - 1) as nat);
    }
}

proof fn lemma_decimal_text_len(n: nat)
    ensures
        1 <= decimal_text(n).len(),
        n < 10 ==> decimal_text(n).len() == 1,
        n >= 10 ==> decimal_text(n).len() == decimal_text(n / 10).len() + 1,
    decreases n,
{
    if n >= 10 {
        lemma_decimal_text_len(n / 10);
    }
}

/// Appends the decimal representation of `v`.
pub fn push_decimal(s: &mut String, v: u64)
    ensures
        final(s)@ == old(s)@ + decimal_text(v as nat),
    decreases v,
{
    if v >= 10 {
        push_decimal(s, v / 10);
    }
    let digits: [char; 10] = ['0', '1', '2', '3', '4', '5', '6', '7', '8', '9'];
    assert(digits@ =~= Seq::new(10, |i: int| decimal_char(i as nat)));
    push_char(s, digits[(v % 10) as usize]);
}

/// The number of decimal digits of `v`.
fn decimal_len(v: u64) -> (n: usize)
    ensures
        n == decimal_text(v as nat).len(),
    decreases v,
{
    proof {
        lemma_decimal_text_len(v as nat);
        reveal_with_fuel(pow10, 21);
        assert(pow10(20) == 100_000_000_000_000_000_000);
        lemma_decimal_text_bound(v as nat, 20);
    }
    if v < 10 {
        1
    } else {
        let k = decimal_len(v / 10);
        proof {
            lemma_decimal_text_len((v / 10) as nat);
        }
        k + 1
    }
}

/// Appends the decimal representation of `v`, zero-padded to at least `w`
/// characters (as `{:0w}` writes it).
pub fn push_padded(s: &mut String, v: u64, w: usize)
    ensures
        final(s)@ == old(s)@ + decimal_padded(v as nat, w as nat),
{
    let len = decimal_len(v);
    let ghost start = s@;
    if len < w {
        let mut k: usize = 0;
        while k < w - len
            invariant
                k <= w - len,
                len < w,
                s@ == start + Seq::new(k as nat, |i: int| '0'),
            decreases w - len - k,
        {
            push_char(s, '0');
            assert(s@ =~= start + Seq::new((k + 1) as nat, |i: int| '0'));
            k = k + 1;
        }
    }
    let ghost mid = s@;
    push_decimal(s, v);
    assert(s@ =~= start + decimal_padded(v as nat, w as nat));
}

} // verus!
