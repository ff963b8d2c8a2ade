//! Pattern recognizers: a recognizer finds the matches of its regular
//! expressions, drops the denied ones and those that fail the recognizer's
//! checksum validators, and raises the score of a match when one of its
//! context words appears near it.
use vstd::prelude::*;

use crate::checksum::{
    au_abn_check, au_abn_valid, au_acn_check, au_acn_valid, au_medicare_check, au_medicare_valid,
    au_tfn_check, au_tfn_valid, cn_id_check, cn_id_valid, de_tax_id_check, de_tax_id_valid,
    iban_check, iban_checkable, iban_cleaned, iban_valid, luhn_check, luhn_term, luhn_total,
    luhn_valid,
};
use crate::entity::{EntityType, RecognizerResult};
use crate::text::{
    byte_len, byte_range, chars_of, check_byte_range, contains_chars, contains_seq, digit_values,
    digits_of, is_ascii_digit, is_byte_range, is_unicode_whitespace, is_whitespace, owned,
    push_char, slice_bytes, str_byte_len, to_lowercase, unicode_lowercase, unicode_uppercase,
};
use vstd::utf8::{encode_utf8, is_char_boundary};

verus! {

/// One pattern of a recognizer: its name, its regular expression, and the
/// scores of its matches without and with context, as order keys.
#[derive(Debug)]
pub struct PatternDef {
    pub name: String,
    pub regex: String,
    pub score: u64,
    pub boosted_score: u64,
}

/// The definition of a recognizer.
#[derive(Debug)]
pub struct RecognizerDef {
    pub name: String,
    pub entity_type: String,
    pub version: String,
    pub patterns: Vec<PatternDef>,
    pub context_words: Vec<String>,
    pub deny_list: Vec<String>,
    pub validators: Vec<String>,
    pub supported_languages: Option<Vec<String>>,
}

#[verifier::external_type_specification]
#[verifier::external_body]
pub struct ExRegex(regex::Regex);

#[verifier::external_type_specification]
#[verifier::external_body]
pub struct ExRegexError(regex::Error);

/// The patterns that `regex::Regex::new` accepts: valid syntax, within the
/// default size limit.
pub uninterp spec fn regex_accepts(pattern: Seq<char>) -> bool;

/// Compiles a pattern with `regex::Regex::new`.
/// Trusted: whether compilation succeeds depends on the pattern alone; which
/// patterns succeed is left to the name `regex_accepts`.
#[verifier::external_body]
fn compile_regex(pattern: &str) -> (res: Result<regex::Regex, regex::Error>)
    ensures
        res is Ok <==> regex_accepts(pattern@),
{
    regex::Regex::new(pattern)
}

/// The byte ranges of the successive non-overlapping matches, leftmost
/// first, of the regular expression `pattern` in `text`.
pub uninterp spec fn regex_match_spans(pattern: Seq<char>, text: Seq<char>) -> Seq<(usize, usize)>;

/// The byte ranges of the matches of `pattern` in `text`, by
/// `regex::Regex::new` and `Regex::find_iter`.
/// Trusted: compilation succeeds on the patterns `regex_accepts` names; the
/// ranges are those that `regex_match_spans` names for the pattern and the
/// text, which the regex crate documents to lie on character boundaries of
/// the text (so that it can be sliced there), in order and without overlap.
#[verifier::external_body]
fn find_spans(pattern: &str, text: &str) -> (res: Result<Vec<(usize, usize)>, regex::Error>)
    ensures
        res is Ok <==> regex_accepts(pattern@),
        res matches Ok(spans) ==> spans@ == regex_match_spans(pattern@, text@),
        res matches Ok(spans) ==> forall|i: int|
            0 <= i < spans@.len() ==> is_byte_range(
                text@,
                (#[trigger] spans@[i]).0 as int,
                spans@[i].1 as int,
            ),
        res matches Ok(spans) ==> forall|i: int|
            0 <= i < spans@.len() - 1 ==> (#[trigger] spans@[i]).1 <= spans@[i + 1].0,
{
    match regex::Regex::new(pattern) {
        Ok(re) => Ok(re.find_iter(text).map(|m| (m.start(), m.end())).collect()),
        Err(e) => Err(e),
    }
}

/// A recognizer driven by regular expressions.
pub struct RegexRecognizer {
    def: RecognizerDef,
    supported: Vec<EntityType>,
}

// ---------------------------------------------------------------------------
// The model
// ---------------------------------------------------------------------------

/// What the recognizer reports of a match:
/// `(entity_type, start, end, score, pattern name)`.
pub type ResultCore = (Seq<char>, usize, usize, u64, Option<Seq<char>>);

pub open spec fn result_core(r: RecognizerResult) -> ResultCore {
    (
        r.entity_type.0@,
        r.start,
        r.end,
        r.score,
        match r.recognizer_name {
            Some(n) => Some(n@),
            None => None,
        },
    )
}

/// The outcome of one checksum validator on a matched text: `None` where the
/// check cannot run to completion (the Luhn sum overflows 32 bits, or the
/// IBAN cannot be rearranged), otherwise whether it passes; validators of
/// other names pass.
pub open spec fn validator_outcome(v: Seq<char>, m: Seq<char>) -> Option<bool> {
    if v == "luhn"@ {
        if luhn_total(digit_values(m)) <= u32::MAX {
            Some(luhn_valid(m))
        } else {
            None
        }
    } else if v == "cn_id_checksum"@ {
        Some(cn_id_valid(m))
    } else if v == "iban"@ {
        if iban_checkable(m) {
            Some(iban_valid(m))
        } else {
            None
        }
    } else if v == "de_tax_id"@ {
        Some(de_tax_id_valid(m))
    } else if v == "au_abn"@ {
        Some(au_abn_valid(m))
    } else if v == "au_tfn"@ {
        Some(au_tfn_valid(m))
    } else if v == "au_acn"@ {
        Some(au_acn_valid(m))
    } else if v == "au_medicare"@ {
        Some(au_medicare_valid(m))
    } else {
        Some(true)
    }
}

/// The validators run in order until one fails (`Some(false)`) or cannot
/// complete (`None`); `Some(true)` when all pass.
pub open spec fn validate_outcome(validators: Seq<String>, m: Seq<char>) -> Option<bool>
    decreases validators.len(),
{
    if validators.len() == 0 {
        Some(true)
    } else {
        match validator_outcome(validators[0]@, m) {
            None => None,
            Some(false) => Some(false),
            Some(true) => validate_outcome(validators.drop_first(), m),
        }
    }
}

/// The context window of a match: 100 bytes before it to 100 bytes after
/// it, clipped to the text.
pub open spec fn window_start(start: int) -> int {
    if start >= 100 {
        start - 100
    } else {
        0
    }
}

pub open spec fn window_end(text: Seq<char>, end: int) -> int {
    if end + 100 < byte_len(text) {
        end + 100
    } else {
        byte_len(text)
    }
}

/// Whether a context word, lowercased, occurs in the lowercased window of a
/// match; `None` where the window does not fall on character boundaries.
pub open spec fn context_outcome(words: Seq<String>, text: Seq<char>, start: int, end: int) -> Option<
    bool,
> {
    if words.len() == 0 {
        Some(false)
    } else if !is_byte_range(text, window_start(start), window_end(text, end)) {
        None
    } else {
        let window = unicode_lowercase(
            byte_range(text, window_start(start), window_end(text, end)),
        );
        Some(
            exists|i: int|
                0 <= i < words.len() && contains_seq(window, unicode_lowercase(#[trigger] words[i]@)),
        )
    }
}

/// Whether the matched text is on the deny list.
pub open spec fn denied(deny: Seq<String>, m: Seq<char>) -> bool {
    exists|i: int| 0 <= i < deny.len() && (#[trigger] deny[i])@ == m
}

/// What becomes of the match `start..end` of pattern `p`: `None` where the
/// recognizer cannot complete, `Some(None)` where the match is dropped,
/// `Some(Some(r))` where it is reported as `r`.
pub open spec fn match_outcome(
    def: RecognizerDef,
    text: Seq<char>,
    p: int,
    start: usize,
    end: usize,
) -> Option<Option<ResultCore>> {
    let m = byte_range(text, start as int, end as int);
    if denied(def.deny_list@, m) {
        Some(None)
    } else {
        match validate_outcome(def.validators@, m) {
            None => None,
            Some(false) => Some(None),
            Some(true) => match context_outcome(def.context_words@, text, start as int, end as int) {
                None => None,
                Some(c) => {
                    let pat = def.patterns@[p];
                    Some(
                        Some(
                            (
                                unicode_uppercase(def.entity_type@),
                                start,
                                end,
                                if c {
                                    pat.boosted_score
                                } else {
                                    pat.score
                                },
                                Some(pat.name@),
                            ),
                        ),
                    )
                },
            },
        }
    }
}

/// The reports for the matches `spans` of pattern `p`, in order.
pub open spec fn scan_pattern(
    def: RecognizerDef,
    text: Seq<char>,
    p: int,
    spans: Seq<(usize, usize)>,
) -> Option<Seq<ResultCore>>
    decreases spans.len(),
{
    if spans.len() == 0 {
        Some(Seq::empty())
    } else {
        match scan_pattern(def, text, p, spans.drop_last()) {
            None => None,
            Some(rs) => match match_outcome(def, text, p, spans.last().0, spans.last().1) {
                None => None,
                Some(None) => Some(rs),
                Some(Some(r)) => Some(rs.push(r)),
            },
        }
    }
}

/// The reports for all patterns, pattern by pattern; `spans[p]` are the
/// matches of pattern `p`.
pub open spec fn scan_all(def: RecognizerDef, text: Seq<char>, spans: Seq<Seq<(usize, usize)>>) -> Option<
    Seq<ResultCore>,
>
    decreases spans.len(),
{
    if spans.len() == 0 {
        Some(Seq::empty())
    } else {
        match scan_all(def, text, spans.drop_last()) {
            None => None,
            Some(a) => match scan_pattern(def, text, spans.len() - 1, spans.last()) {
                None => None,
                Some(b) => Some(a + b),
            },
        }
    }
}

/// Valid match ranges of a text.
pub open spec fn valid_spans(text: Seq<char>, spans: Seq<(usize, usize)>) -> bool {
    forall|i: int|
        0 <= i < spans.len() ==> is_byte_range(text, (#[trigger] spans[i]).0 as int, spans[i].1 as int)
}

// ---------------------------------------------------------------------------
// Checks
// ---------------------------------------------------------------------------

/// Whether the string is the given name.
fn name_is(v: &String, name: &str) -> (res: bool)
    ensures
        res == (v@ == name@),
{
    let a = chars_of(v.as_str());
    let b = chars_of(name);
    if a.len() != b.len() {
        assert(a@.len() != b@.len());
        assert(v@ != name@);
        return false;
    }
    let mut i: usize = 0;
    while i < a.len()
        invariant
            i <= a@.len(),
            a@ == v@,
            b@ == name@,
            a@.len() == b@.len(),
            forall|j: int| 0 <= j < i ==> a@[j] == b@[j],
        decreases a@.len() - i,
    {
        if a[i] != b[i] {
            assert(a@[i as int] != b@[i as int]);
            return false;
        }
        i = i + 1;
    }
    assert(a@ =~= b@);
    true
}

/// Whether the Luhn sum of the digits of `number` fits in 32 bits.
fn luhn_fits(number: &str) -> (res: bool)
    ensures
        res == (luhn_total(digit_values(number@)) <= u32::MAX),
{
    let digits = digits_of(number);
    let n = digits.len();
    let ghost d = digits@;
    let mut sum: u64 = 0;
    let mut i: usize = n;
    while i > 0
        invariant
            i <= n,
            n == d.len(),
            d == digits@,
            d == digit_values(number@),
            forall|j: int| 0 <= j < d.len() ==> d[j] <= 9,
            sum as int == luhn_total(d.subrange(i as int, n as int)),
            sum <= u32::MAX,
        decreases i,
    {
        assert(d.subrange(i - 1, n as int).drop_first() == d.subrange(i as int, n as int));
        let mut val = digits[i - 1] as u64;
        if (n - i) % 2 == 1 {
            val = val * 2;
            if val > 9 {
                val = val - 9;
            }
        }
        sum = sum + val;
        i = i - 1;
        if sum > u32::MAX as u64 {
            proof {
                lemma_luhn_prefix_total(d, i as int);
            }
            return false;
        }
    }
    assert(d.subrange(0, n as int) == d);
    true
}

proof fn lemma_luhn_prefix_total(d: Seq<u32>, i: int)
    requires
        0 <= i <= d.len(),
    ensures
        luhn_total(d.subrange(i, d.len() as int)) <= luhn_total(d),
    decreases i,
{
    if i > 0 {
        lemma_luhn_prefix_total(d.drop_first(), i - 1);
        assert(d.drop_first().subrange(i - 1, d.drop_first().len() as int) == d.subrange(
            i,
            d.len() as int,
        ));
        assert(luhn_term(d[0], (d.len() - 1) % 2 == 1) >= 0);
    } else {
        assert(d.subrange(0, d.len() as int) == d);
    }
}

/// Whether the IBAN check can run to completion on `s`.
fn iban_checkable_exec(s: &str) -> (res: bool)
    ensures
        res == iban_checkable(s@),
{
    let chars = chars_of(s);
    let mut cleaned = String::new();
    let mut i: usize = 0;
    while i < chars.len()
        invariant
            i <= chars@.len(),
            chars@ == s@,
            cleaned@ == iban_cleaned(chars@.take(i as int)),
        decreases chars@.len() - i,
    {
        let c = chars[i];
        assert(chars@.take(i + 1).drop_last() == chars@.take(i as int));
        if !(is_whitespace(c) || c == '-') {
            push_char(&mut cleaned, c);
        }
        i = i + 1;
    }
    assert(chars@.take(chars@.len() as int) == chars@);
    assert(cleaned@ == iban_cleaned(s@));
    let len = str_byte_len(cleaned.as_str());
    if len < 5 || len > 34 {
        return true;
    }
    if !cleaned.as_str().is_char_boundary(4) {
        return false;
    }
    let cc = chars_of(cleaned.as_str());
    let mut j: usize = 0;
    while j < cc.len()
        invariant
            j <= cc@.len(),
            cc@ == cleaned@,
            cleaned@ == iban_cleaned(s@),
            5 <= encode_utf8(cleaned@).len() <= 34,
            is_char_boundary(encode_utf8(cleaned@), 4),
            forall|k: int| 0 <= k < j ==> is_ascii_digit(#[trigger] cc@[k]) || cc@[k] as u32 >= 65,
        decreases cc@.len() - j,
    {
        let c = cc[j];
        let cu = c as u32;
        if !(('0' <= c && c <= '9') || cu >= 65) {
            assert(!(is_ascii_digit(cc@[j as int]) || cc@[j as int] as u32 >= 65));
            return false;
        }
        j = j + 1;
    }
    true
}

/// The outcome of one validator on a matched text.
fn run_validator(v: &String, m: &str) -> (res: Option<bool>)
    ensures
        res == validator_outcome(v@, m@),
{
    if name_is(v, "luhn") {
        if luhn_fits(m) {
            Some(luhn_check(m))
        } else {
            None
        }
    } else if name_is(v, "cn_id_checksum") {
        Some(cn_id_check(m))
    } else if name_is(v, "iban") {
        if iban_checkable_exec(m) {
            Some(iban_check(m))
        } else {
            None
        }
    } else if name_is(v, "de_tax_id") {
        Some(de_tax_id_check(m))
    } else if name_is(v, "au_abn") {
        Some(au_abn_check(m))
    } else if name_is(v, "au_tfn") {
        Some(au_tfn_check(m))
    } else if name_is(v, "au_acn") {
        Some(au_acn_check(m))
    } else if name_is(v, "au_medicare") {
        Some(au_medicare_check(m))
    } else {
        Some(true)
    }
}

impl RegexRecognizer {
    /// The recognizer's definition.
    pub closed spec fn definition(&self) -> RecognizerDef {
        self.def
    }

    #[verifier::type_invariant]
    closed spec fn well_formed(&self) -> bool {
        &&& forall|p: int|
            0 <= p < self.def.patterns@.len() ==> regex_accepts(
                (#[trigger] self.def.patterns@[p]).regex@,
            )
        &&& self.supported@.len() == 1
        &&& self.supported@[0].0@ == unicode_uppercase(self.def.entity_type@)
    }

    /// Compiles a recognizer from its definition: `Err` with the error of the
    /// first pattern that does not compile.
    pub fn from_def(def: RecognizerDef) -> (res: Result<Self, regex::Error>)
        ensures
            res is Ok <==> forall|p: int|
                0 <= p < def.patterns@.len() ==> regex_accepts(
                    (#[trigger] def.patterns@[p]).regex@,
                ),
            res matches Ok(r) ==> r.definition() == def,
    {
        let mut p: usize = 0;
        while p < def.patterns.len()
            invariant
                p <= def.patterns@.len(),
                forall|q: int| 0 <= q < p ==> regex_accepts((#[trigger] def.patterns@[q]).regex@),
            decreases def.patterns@.len() - p,
        {
            match compile_regex(def.patterns[p].regex.as_str()) {
                Ok(_) => {},
                Err(e) => {
                    return Err(e);
                },
            }
            p = p + 1;
        }
        let entity = EntityType::new(def.entity_type.as_str());
        let mut supported: Vec<EntityType> = Vec::new();
        supported.push(entity);
        Ok(RegexRecognizer { def, supported })
    }

    /// The recognizer's name.
    pub fn name(&self) -> (res: &str)
        ensures
            res@ == self.definition().name@,
    {
        self.def.name.as_str()
    }

    /// The one entity type that the recognizer detects: its definition's
    /// entity type, uppercased.
    pub fn supported_entities(&self) -> (res: &[EntityType])
        ensures
            res@.len() == 1,
            res@[0].0@ == unicode_uppercase(self.definition().entity_type@),
    {
        proof {
            use_type_invariant(self);
        }
        self.supported.as_slice()
    }

    /// Whether the matched text is on the deny list.
    fn is_denied(&self, matched: &str) -> (res: bool)
        ensures
            res == denied(self.definition().deny_list@, matched@),
    {
        let m = owned(matched);
        let mut i: usize = 0;
        while i < self.def.deny_list.len()
            invariant
                i <= self.def.deny_list@.len(),
                m@ == matched@,
                forall|j: int| 0 <= j < i ==> (#[trigger] self.def.deny_list@[j])@ != matched@,
            decreases self.def.deny_list@.len() - i,
        {
            if self.def.deny_list[i] == m {
                return true;
            }
            i = i + 1;
        }
        false
    }

    /// Runs the validators in order on a matched text.
    fn validate(&self, matched: &str) -> (res: Option<bool>)
        ensures
            res == validate_outcome(self.definition().validators@, matched@),
    {
        let ghost vs = self.def.validators@;
        let mut i: usize = 0;
        assert(vs.skip(0) == vs);
        while i < self.def.validators.len()
            invariant
                i <= vs.len(),
                vs == self.def.validators@,
                validate_outcome(vs, matched@) == validate_outcome(vs.skip(i as int), matched@),
            decreases vs.len() - i,
        {
            assert(vs.skip(i as int)[0] == vs[i as int]);
            assert(vs.skip(i as int).drop_first() == vs.skip(i + 1));
            match run_validator(&self.def.validators[i], matched) {
                None => {
                    return None;
                },
                Some(false) => {
                    return Some(false);
                },
                Some(true) => {},
            }
            i = i + 1;
        }
        Some(true)
    }

    /// Whether a context word occurs near the match `start..end`.
    fn has_context(&self, text: &str, start: usize, end: usize) -> (res: Option<bool>)
        requires
            is_byte_range(text@, start as int, end as int),
        ensures
            res == context_outcome(self.definition().context_words@, text@, start as int, end as int),
    {
        if self.def.context_words.len() == 0 {
            return Some(false);
        }
        let len = str_byte_len(text);
        let ws = if start >= 100 {
            start - 100
        } else {
            0
        };
        let we = if len - end > 100 {
            end + 100
        } else {
            len
        };
        assert(we == window_end(text@, end as int));
        assert(ws == window_start(start as int));
        if !check_byte_range(text, ws, we) {
            return None;
        }
        let window = to_lowercase(slice_bytes(text, ws, we));
        let wchars = chars_of(window.as_str());
        let ghost words = self.def.context_words@;
        let mut i: usize = 0;
        while i < self.def.context_words.len()
            invariant
                i <= words.len(),
                words == self.def.context_words@,
                wchars@ == unicode_lowercase(
                    byte_range(text@, window_start(start as int), window_end(text@, end as int)),
                ),
                words.len() > 0,
                is_byte_range(text@, window_start(start as int), window_end(text@, end as int)),
                forall|j: int|
                    0 <= j < i ==> !contains_seq(wchars@, unicode_lowercase((#[trigger] words[j])@)),
            decreases words.len() - i,
        {
            let w = to_lowercase(self.def.context_words[i].as_str());
            let wc = chars_of(w.as_str());
            if contains_chars(&wchars, &wc) {
                assert(contains_seq(wchars@, unicode_lowercase(words[i as int]@)));
                assert(self.definition().context_words@ == words);
                assert(is_byte_range(text@, window_start(start as int), window_end(text@, end as int)));
                assert(context_outcome(self.definition().context_words@, text@, start as int, end as int) == Some(true));
                return Some(true);
            }
            i = i + 1;
        }
        Some(false)
    }

    /// Reports the matches `spans` of pattern `p`, in order; `None` where the
    /// recognizer cannot complete.
    fn scan_pattern_exec(&self, text: &str, p: usize, spans: &Vec<(usize, usize)>) -> (res: Option<
        Vec<RecognizerResult>,
    >)
        requires
            p < self.definition().patterns@.len(),
            valid_spans(text@, spans@),
        ensures
            match scan_pattern(self.definition(), text@, p as int, spans@) {
                None => res is None,
                Some(rs) => res matches Some(v) && v@.map_values(|r: RecognizerResult| result_core(r))
                    == rs,
            },
    {
        proof {
            use_type_invariant(self);
        }
        let mut out: Vec<RecognizerResult> = Vec::new();
        let mut j: usize = 0;
        while j < spans.len()
            invariant
                j <= spans@.len(),
                p < self.def.patterns@.len(),
                valid_spans(text@, spans@),
                scan_pattern(self.definition(), text@, p as int, spans@.take(j as int)) matches Some(
                    rs,
                ) && out@.map_values(|r: RecognizerResult| result_core(r)) == rs,
            decreases spans@.len() - j,
        {
            proof {
                use_type_invariant(self);
            }
            let (s, e) = spans[j];
            assert(spans@.take(j + 1).drop_last() == spans@.take(j as int));
            assert(spans@.take(j + 1).last() == spans@[j as int]);
            let ghost before = out@;
            let matched = slice_bytes(text, s, e);
            if !self.is_denied(matched) {
                match self.validate(matched) {
                    None => {
                        proof {
                            lemma_scan_pattern_none(self.definition(), text@, p as int, spans@, j as int + 1);
                        }
                        return None;
                    },
                    Some(false) => {},
                    Some(true) => {
                        match self.has_context(text, s, e) {
                            None => {
                                proof {
                                    lemma_scan_pattern_none(self.definition(), text@, p as int, spans@, j as int + 1);
                                }
                                return None;
                            },
                            Some(ctx) => {
                                let cp = &self.def.patterns[p];
                                let score = if ctx {
                                    cp.boosted_score
                                } else {
                                    cp.score
                                };
                                let entity = EntityType(self.supported[0].0.clone());
                                out.push(
                                    RecognizerResult {
                                        entity_type: entity,
                                        start: s,
                                        end: e,
                                        score,
                                        recognizer_name: Some(cp.name.clone()),
                                    },
                                );
                                assert(out@.map_values(|r: RecognizerResult| result_core(r))
                                    =~= before.map_values(|r: RecognizerResult| result_core(r)).push(
                                    result_core(out@.last()),
                                ));
                            },
                        }
                    },
                }
            }
            j = j + 1;
        }
        assert(spans@.take(spans@.len() as int) == spans@);
        Some(out)
    }

    /// Reports the matches of every pattern, pattern by pattern; `spans[p]`
    /// are the matches of pattern `p`. `None` where the recognizer cannot
    /// complete: a validator that cannot run to completion on a match, or a
    /// context window that does not fall on character boundaries.
    pub fn analyze_spans(&self, text: &str, spans: &Vec<Vec<(usize, usize)>>) -> (res: Option<
        Vec<RecognizerResult>,
    >)
        requires
            spans@.len() == self.definition().patterns@.len(),
            forall|p: int| 0 <= p < spans@.len() ==> valid_spans(text@, (#[trigger] spans@[p])@),
        ensures
            match scan_all(self.definition(), text@, spans@.map_values(|v: Vec<(usize, usize)>| v@)) {
                None => res is None,
                Some(rs) => res matches Some(v) && v@.map_values(|r: RecognizerResult| result_core(r))
                    == rs,
            },
    {
        let ghost sp = spans@.map_values(|v: Vec<(usize, usize)>| v@);
        let mut out: Vec<RecognizerResult> = Vec::new();
        let mut p: usize = 0;
        while p < spans.len()
            invariant
                p <= spans@.len(),
                sp == spans@.map_values(|v: Vec<(usize, usize)>| v@),
                spans@.len() == self.definition().patterns@.len(),
                forall|q: int| 0 <= q < spans@.len() ==> valid_spans(text@, (#[trigger] spans@[q])@),
                scan_all(self.definition(), text@, sp.take(p as int)) matches Some(rs) && out@.map_values(
                    |r: RecognizerResult| result_core(r),
                ) == rs,
            decreases spans@.len() - p,
        {
            assert(sp.take(p + 1).drop_last() == sp.take(p as int));
            assert(sp.take(p + 1).last() == spans@[p as int]@);
            match self.scan_pattern_exec(text, p, &spans[p]) {
                None => {
                    proof {
                        lemma_scan_all_none(self.definition(), text@, sp, p as int + 1);
                    }
                    return None;
                },
                Some(mut found) => {
                    let ghost before = out@;
                    let ghost add = found@;
                    out.append(&mut found);
                    assert(out@.map_values(|r: RecognizerResult| result_core(r)) =~= before.map_values(
                        |r: RecognizerResult| result_core(r),
                    ) + add.map_values(|r: RecognizerResult| result_core(r)));
                },
            }
            p = p + 1;
        }
        assert(sp.take(spans@.len() as int) == sp);
        Some(out)
    }

    /// Analyzes `text`: nothing when `entities` is not empty and does not
    /// name the recognizer's entity type; otherwise the reports for the
    /// matches of every pattern, pattern by pattern, as `analyze_spans`
    /// gives them for the matches of the regular expressions.
    pub fn analyze(&self, text: &str, entities: &[EntityType]) -> (res: Option<Vec<RecognizerResult>>)
        ensures
            !wanted(entities@, unicode_uppercase(self.definition().entity_type@)) ==> (res matches Some(
                v,
            ) && v@.len() == 0),
            wanted(entities@, unicode_uppercase(self.definition().entity_type@)) ==> match scan_all(
                self.definition(),
                text@,
                pattern_matches(self.definition(), text@),
            ) {
                None => res is None,
                Some(rs) => res matches Some(v) && v@.map_values(|r: RecognizerResult| result_core(r))
                    == rs,
            },
    {
        proof {
            use_type_invariant(self);
        }
        if entities.len() > 0 {
            let mut found = false;
            let mut i: usize = 0;
            while i < entities.len()
                invariant
                    i <= entities@.len(),
                    self.supported@.len() == 1,
                    found == exists|j: int|
                        0 <= j < i && (#[trigger] entities@[j]).0@ == self.supported@[0].0@,
                decreases entities@.len() - i,
            {
                if entities[i].0 == self.supported[0].0 {
                    found = true;
                }
                i = i + 1;
            }
            if !found {
                return Some(Vec::new());
            }
        }
        let ghost want = pattern_matches(self.definition(), text@);
        let mut all: Vec<Vec<(usize, usize)>> = Vec::new();
        let mut p: usize = 0;
        while p < self.def.patterns.len()
            invariant
                p <= self.def.patterns@.len(),
                want == pattern_matches(self.definition(), text@),
                self.definition() == self.def,
                forall|q: int|
                    0 <= q < self.def.patterns@.len() ==> regex_accepts(
                        (#[trigger] self.def.patterns@[q]).regex@,
                    ),
                all@.len() == p,
                forall|q: int| 0 <= q < p ==> valid_spans(text@, (#[trigger] all@[q])@),
                forall|q: int| 0 <= q < p ==> (#[trigger] all@[q])@ == want[q],
            decreases self.def.patterns@.len() - p,
        {
            match find_spans(self.def.patterns[p].regex.as_str(), text) {
                Ok(spans) => {
                    all.push(spans);
                },
                Err(_) => {
                    assert(regex_accepts(self.def.patterns@[p as int].regex@));
                    return None;
                },
            }
            p = p + 1;
        }
        let res = self.analyze_spans(text, &all);
        assert(all@.map_values(|v: Vec<(usize, usize)>| v@) =~= want);
        res
    }
}

/// The matches of each pattern of a definition in `text`.
pub open spec fn pattern_matches(def: RecognizerDef, text: Seq<char>) -> Seq<Seq<(usize, usize)>> {
    Seq::new(def.patterns@.len(), |p: int| regex_match_spans(def.patterns@[p].regex@, text))
}

/// `entities` is empty or names the entity type `e`.
pub open spec fn wanted(entities: Seq<EntityType>, e: Seq<char>) -> bool {
    entities.len() == 0 || exists|j: int| 0 <= j < entities.len() && (#[trigger] entities[j]).0@ == e
}

proof fn lemma_scan_all_none(
    def: RecognizerDef,
    text: Seq<char>,
    spans: Seq<Seq<(usize, usize)>>,
    k: int,
)
    requires
        0 <= k <= spans.len(),
        scan_all(def, text, spans.take(k)) is None,
    ensures
        scan_all(def, text, spans) is None,
    decreases spans.len() - k,
{
    if k < spans.len() {
        assert(spans.take(k + 1).drop_last() == spans.take(k));
        lemma_scan_all_none(def, text, spans, k + 1);
    } else {
        assert(spans.take(k) == spans);
    }
}

proof fn lemma_scan_pattern_none(
    def: RecognizerDef,
    text: Seq<char>,
    p: int,
    spans: Seq<(usize, usize)>,
    k: int,
)
    requires
        0 <= k <= spans.len(),
        scan_pattern(def, text, p, spans.take(k)) is None,
    ensures
        scan_pattern(def, text, p, spans) is None,
    decreases spans.len() - k,
{
    if k < spans.len() {
        assert(spans.take(k + 1).drop_last() == spans.take(k));
        lemma_scan_pattern_none(def, text, p, spans, k + 1);
    } else {
        assert(spans.take(k) == spans);
    }
}

} // verus!
