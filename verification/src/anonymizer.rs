//! Anonymization: each detected entity of a text is replaced according to
//! the operator chosen for its entity type.
use vstd::prelude::*;
use vstd::utf8::encode_utf8;

use crate::entity::RecognizerResult;
use crate::order::{stable_order, stable_order_desc};
use crate::text::{
    append_str, byte_len, byte_range, check_byte_range, chars_of, fnv1a, fnv1a_str, hex_fixed,
    is_byte_range, owned, push_char, push_hex, slice_bytes, str_byte_len, string_from_chars,
};
use crate::vault::{
    entries_core, lemma_timestamps_kept_same, lemma_timestamps_kept_trans,
    lemma_tokenize_keeps_timestamps, timestamps_kept, tokenize_core, EntryCore, Vault,
};

verus! {

/// The hash function of the `Hash` operator.
#[derive(Debug, Clone, Copy)]
pub enum HashType {
    Fnv,
}

/// How a detected entity is replaced.
#[derive(Debug)]
pub enum Operator {
    /// By `new_value`, or by `<ENTITY_TYPE>` when `new_value` is empty.
    Replace { new_value: String },
    /// By the entity's text with `chars_to_mask` characters (at most all of
    /// them) replaced by `masking_char`, counted from the end if `from_end`.
    Mask { masking_char: char, chars_to_mask: usize, from_end: bool },
    /// By the FNV-1a hash of the entity's text, in eight hexadecimal digits.
    Hash { hash_type: HashType },
    /// By nothing.
    Redact,
    /// By the vault's token for the entity's text, or by `<ENTITY_TYPE>`
    /// when no vault is given.
    Vault,
}

impl Default for Operator {
    fn default() -> (op: Self)
        ensures
            op matches Operator::Replace { new_value } && new_value@.len() == 0,
    {
        Operator::Replace { new_value: String::new() }
    }
}

/// One replacement made by the anonymizer.
#[derive(Debug)]
pub struct AnonymizedItem {
    pub entity_type: String,
    pub start: usize,
    pub end: usize,
    pub original: String,
    pub replacement: String,
}

/// The anonymized text and the replacements made, in order of position.
#[derive(Debug)]
pub struct AnonymizedResult {
    pub text: String,
    pub items: Vec<AnonymizedItem>,
}

/// The anonymizer.
pub struct Anonymizer;

// ---------------------------------------------------------------------------
// Operators per entity type
// ---------------------------------------------------------------------------

/// The operators chosen per entity type: a map from entity-type names to
/// operators.
pub struct OperatorMap {
    pairs: Vec<(String, Operator)>,
}

/// The operator of the first pair whose name is `k`.
pub open spec fn pairs_lookup(pairs: Seq<(String, Operator)>, k: Seq<char>) -> Option<Operator>
    decreases pairs.len(),
{
    if pairs.len() == 0 {
        None
    } else if pairs[0].0@ == k {
        Some(pairs[0].1)
    } else {
        pairs_lookup(pairs.drop_first(), k)
    }
}

impl View for OperatorMap {
    type V = Map<Seq<char>, Operator>;

    closed spec fn view(&self) -> Map<Seq<char>, Operator> {
        Map::new(
            |k: Seq<char>| pairs_lookup(self.pairs@, k) is Some,
            |k: Seq<char>| pairs_lookup(self.pairs@, k).unwrap(),
        )
    }
}

proof fn lemma_pairs_lookup_update(pairs: Seq<(String, Operator)>, i: int, p: (String, Operator), k: Seq<char>)
    requires
        0 <= i < pairs.len(),
        pairs[i].0@ == p.0@,
        pairs_lookup(pairs, p.0@) == Some(pairs[i].1),
        forall|j: int| 0 <= j < i ==> (#[trigger] pairs[j]).0@ != p.0@,
    ensures
        pairs_lookup(pairs.update(i, p), k) == if k == p.0@ {
            Some(p.1)
        } else {
            pairs_lookup(pairs, k)
        },
    decreases pairs.len(),
{
    if i > 0 {
        let rest = pairs.drop_first();
        assert(pairs.update(i, p).drop_first() == rest.update(i - 1, p));
        assert forall|j: int| 0 <= j < i - 1 implies (#[trigger] rest[j]).0@ != p.0@ by {
            assert(rest[j] == pairs[j + 1]);
        }
        lemma_pairs_lookup_update(rest, i - 1, p, k);
    } else {
        assert(pairs.update(i, p).drop_first() == pairs.drop_first());
    }
}

proof fn lemma_pairs_lookup_push(pairs: Seq<(String, Operator)>, p: (String, Operator), k: Seq<char>)
    requires
        pairs_lookup(pairs, p.0@) is None,
    ensures
        pairs_lookup(pairs.push(p), k) == if k == p.0@ {
            Some(p.1)
        } else {
            pairs_lookup(pairs, k)
        },
    decreases pairs.len(),
{
    let q = pairs.push(p);
    if pairs.len() > 0 {
        assert(q.drop_first() == pairs.drop_first().push(p));
        assert(q[0] == pairs[0]);
        assert(pairs[0].0@ != p.0@);
        lemma_pairs_lookup_push(pairs.drop_first(), p, k);
        if pairs[0].0@ == k {
            assert(pairs_lookup(q, k) == Some(pairs[0].1));
        } else {
            assert(pairs_lookup(q, k) == pairs_lookup(q.drop_first(), k));
        }
    } else {
        assert(q.drop_first() == Seq::<(String, Operator)>::empty());
        assert(q[0] == p);
        assert(pairs_lookup(q, k) == if k == p.0@ { Some(p.1) } else { pairs_lookup(q.drop_first(), k) });
    }
}

proof fn lemma_map_after_insert(
    old_pairs: Seq<(String, Operator)>,
    new_pairs: Seq<(String, Operator)>,
    name: Seq<char>,
    op: Operator,
)
    requires
        forall|k: Seq<char>|
            #![trigger pairs_lookup(new_pairs, k)]
            pairs_lookup(new_pairs, k) == if k == name {
                Some(op)
            } else {
                pairs_lookup(old_pairs, k)
            },
    ensures
        Map::new(
            |k: Seq<char>| pairs_lookup(new_pairs, k) is Some,
            |k: Seq<char>| pairs_lookup(new_pairs, k).unwrap(),
        ) =~= Map::new(
            |k: Seq<char>| pairs_lookup(old_pairs, k) is Some,
            |k: Seq<char>| pairs_lookup(old_pairs, k).unwrap(),
        ).insert(name, op),
{
}

impl OperatorMap {
    /// An empty map.
    pub fn new() -> (m: Self)
        ensures
            m@ == Map::<Seq<char>, Operator>::empty(),
    {
        let m = OperatorMap { pairs: Vec::new() };
        assert(m@ =~= Map::<Seq<char>, Operator>::empty());
        m
    }

    /// Chooses `op` for the entity type named `name`, in place of any
    /// operator chosen for it before.
    pub fn insert(&mut self, name: String, op: Operator)
        ensures
            final(self)@ == old(self)@.insert(name@, op),
    {
        let ghost old_pairs = self.pairs@;
        let mut i: usize = 0;
        assert(old_pairs.skip(0) == old_pairs);
        while i < self.pairs.len()
            invariant
                i <= self.pairs@.len(),
                self.pairs@ == old_pairs,
                old(self).pairs@ == old_pairs,
                forall|j: int| 0 <= j < i ==> (#[trigger] old_pairs[j]).0@ != name@,
                pairs_lookup(old_pairs, name@) == pairs_lookup(old_pairs.skip(i as int), name@),
            decreases self.pairs@.len() - i,
        {
            assert(old_pairs.skip(i as int)[0] == old_pairs[i as int]);
            assert(old_pairs.skip(i as int).drop_first() == old_pairs.skip(i + 1));
            if self.pairs[i].0 == name {
                let ghost p = (name, op);
                assert(pairs_lookup(old_pairs, name@) == Some(old_pairs[i as int].1));
                proof {
                    assert forall|k: Seq<char>|
                        #![trigger pairs_lookup(old_pairs.update(i as int, p), k)]
                        pairs_lookup(old_pairs.update(i as int, p), k) == if k == name@ {
                            Some(op)
                        } else {
                            pairs_lookup(old_pairs, k)
                        } by {
                        lemma_pairs_lookup_update(old_pairs, i as int, p, k);
                    }
                }
                self.pairs.set(i, (name, op));
                assert(self.pairs@ == old_pairs.update(i as int, p));
                proof {
                    lemma_map_after_insert(old_pairs, self.pairs@, p.0@, op);
                }
                return ;
            }
            i = i + 1;
        }
        assert(old_pairs.skip(i as int).len() == 0);
        let ghost p = (name, op);
        proof {
            assert forall|k: Seq<char>|
                #![trigger pairs_lookup(old_pairs.push(p), k)]
                pairs_lookup(old_pairs.push(p), k) == if k == name@ {
                    Some(op)
                } else {
                    pairs_lookup(old_pairs, k)
                } by {
                lemma_pairs_lookup_push(old_pairs, p, k);
            }
        }
        self.pairs.push((name, op));
        assert(self.pairs@ == old_pairs.push(p));
        proof {
            lemma_map_after_insert(old_pairs, self.pairs@, p.0@, op);
        }
    }

    /// The operator chosen for the entity type named `name`, if any.
    pub fn get(&self, name: &str) -> (res: Option<&Operator>)
        ensures
            match res {
                Some(op) => self@.dom().contains(name@) && *op == self@[name@],
                None => !self@.dom().contains(name@),
            },
    {
        let ghost ps = self.pairs@;
        let key = owned(name);
        let mut i: usize = 0;
        assert(ps.skip(0) == ps);
        while i < self.pairs.len()
            invariant
                i <= self.pairs@.len(),
                ps == self.pairs@,
                key@ == name@,
                pairs_lookup(ps, name@) == pairs_lookup(ps.skip(i as int), name@),
            decreases self.pairs@.len() - i,
        {
            assert(ps.skip(i as int)[0] == ps[i as int]);
            assert(ps.skip(i as int).drop_first() == ps.skip(i + 1));
            if self.pairs[i].0 == key {
                return Some(&self.pairs[i].1);
            }
            i = i + 1;
        }
        None
    }
}

// ---------------------------------------------------------------------------
// Replacements
// ---------------------------------------------------------------------------

/// `s` with `k` characters (at most all of them) replaced by `m`: the last
/// ones if `from_end`, the first ones otherwise.
pub open spec fn masked(s: Seq<char>, m: char, k: nat, from_end: bool) -> Seq<char> {
    let n = s.len();
    let t = if k < n {
        k
    } else {
        n
    };
    Seq::new(
        n,
        |i: int|
            if (from_end && i >= n - t) || (!from_end && i < t) {
                m
            } else {
                s[i]
            },
    )
}

/// The FNV-1a hash of the UTF-8 bytes of `s`, in eight lowercase hexadecimal digits.
pub open spec fn hashed(s: Seq<char>) -> Seq<char> {
    hex_fixed(fnv1a(encode_utf8(s)) as nat, 8)
}

/// `<ENTITY_TYPE>`.
pub open spec fn placeholder(entity_type: Seq<char>) -> Seq<char> {
    seq!['<'] + entity_type + seq!['>']
}

/// Masks `chars_to_mask` characters of `text` (at most all of them) with
/// `mask_char`, from the end if `from_end`, from the start otherwise.
pub fn mask_text(text: &str, mask_char: char, chars_to_mask: usize, from_end: bool) -> (res: String)
    ensures
        res@ == masked(text@, mask_char, chars_to_mask as nat, from_end),
{
    let chars = chars_of(text);
    let n = chars.len();
    let to_mask = if chars_to_mask < n {
        chars_to_mask
    } else {
        n
    };
    let mut out: Vec<char> = Vec::new();
    let mut i: usize = 0;
    while i < n
        invariant
            i <= n,
            n == chars@.len(),
            chars@ == text@,
            to_mask == if (chars_to_mask as nat) < n {
                chars_to_mask as nat
            } else {
                n as nat
            },
            out@ == masked(text@, mask_char, chars_to_mask as nat, from_end).take(i as int),
        decreases n - i,
    {
        let c = if (from_end && i >= n - to_mask) || (!from_end && i < to_mask) {
            mask_char
        } else {
            chars[i]
        };
        out.push(c);
        assert(out@ =~= masked(text@, mask_char, chars_to_mask as nat, from_end).take(i + 1));
        i = i + 1;
    }
    assert(out@ =~= masked(text@, mask_char, chars_to_mask as nat, from_end));
    string_from_chars(&out)
}

/// The FNV-1a hash of `text` in eight lowercase hexadecimal digits.
pub fn hash_text(text: &str, hash_type: &HashType) -> (res: String)
    ensures
        res@ == hashed(text@),
{
    let h = fnv1a_str(text);
    let mut out = String::new();
    push_hex(&mut out, h, 8);
    out
}

/// `<ENTITY_TYPE>` for an entity type name.
fn placeholder_text(entity_type: &str) -> (res: String)
    ensures
        res@ == placeholder(entity_type@),
{
    let mut out = String::new();
    push_char(&mut out, '<');
    append_str(&mut out, entity_type);
    push_char(&mut out, '>');
    out
}

/// The operator for an entity type: the one chosen for it, or the default.
pub open spec fn chosen_operator(
    ops: Map<Seq<char>, Operator>,
    entity_type: Seq<char>,
    default: Operator,
) -> Operator {
    if ops.dom().contains(entity_type) {
        ops[entity_type]
    } else {
        default
    }
}

/// The replacement of an entity's text, with the vault's entries after it
/// (when there is a vault); `None` where tokenization cannot proceed.
pub open spec fn replacement(
    op: Operator,
    entity_type: Seq<char>,
    original: Seq<char>,
    vault: Option<Seq<EntryCore>>,
    salt: Seq<char>,
) -> Option<(Seq<char>, Option<Seq<EntryCore>>)> {
    match op {
        Operator::Replace { new_value } => if new_value@.len() == 0 {
            Some((placeholder(entity_type), vault))
        } else {
            Some((new_value@, vault))
        },
        Operator::Mask { masking_char, chars_to_mask, from_end } => Some(
            (masked(original, masking_char, chars_to_mask as nat, from_end), vault),
        ),
        Operator::Hash { hash_type } => Some((hashed(original), vault)),
        Operator::Redact => Some((Seq::empty(), vault)),
        Operator::Vault => match vault {
            None => Some((placeholder(entity_type), None)),
            Some(es) => match tokenize_core(es, salt, entity_type, original, Seq::empty()) {
                Some(r) => Some((r.1, Some(r.0))),
                None => None,
            },
        },
    }
}

/// `r` with the byte range `start..end` replaced by `rep` (as `String::replace_range`).
pub open spec fn splice(r: Seq<char>, start: int, end: int, rep: Seq<char>) -> Seq<char> {
    byte_range(r, 0, start) + rep + byte_range(r, end, byte_len(r))
}

/// One replacement, as the anonymizer records it:
/// `(entity_type, start, end, original, replacement)`.
pub type ItemCore = (Seq<char>, usize, usize, Seq<char>, Seq<char>);

pub open spec fn item_core(i: AnonymizedItem) -> ItemCore {
    (i.entity_type@, i.start, i.end, i.original@, i.replacement@)
}

/// The order in which the anonymizer visits the entities: by start,
/// last first, ties in the order given.
pub open spec fn entity_order(ents: Seq<RecognizerResult>) -> Seq<int> {
    stable_order(Seq::new(ents.len(), |i: int| (ents[i].start as u64, 0u64)), ents.len() as int)
}

/// One step of the anonymizer: the entity `e` is replaced in the current
/// text `r`, given the vault's entries `vault`. The result is the new text,
/// the record of the replacement and the vault's entries after it; `None`
/// where the step cannot be taken (a range that cannot be sliced, or a
/// failed tokenization).
#[verifier::opaque]
pub open spec fn anonymize_step(
    text: Seq<char>,
    e: RecognizerResult,
    ops: Map<Seq<char>, Operator>,
    default: Operator,
    r: Seq<char>,
    vault: Option<Seq<EntryCore>>,
    salt: Seq<char>,
) -> Option<(Seq<char>, ItemCore, Option<Seq<EntryCore>>)> {
    let et = e.entity_type.0@;
    if !is_byte_range(text, e.start as int, e.end as int) {
        None
    } else {
        let orig = byte_range(text, e.start as int, e.end as int);
        match replacement(chosen_operator(ops, et, default), et, orig, vault, salt) {
            None => None,
            Some(rv) => if !is_byte_range(r, e.start as int, e.end as int) {
                None
            } else {
                Some(
                    (
                        splice(r, e.start as int, e.end as int, rv.0),
                        (et, e.start, e.end, orig, rv.0),
                        rv.1,
                    ),
                )
            },
        }
    }
}

/// The text, the replacements made and the vault entries after the first
/// `k` entities of `order` are replaced; `None` where a step cannot be taken.
pub open spec fn anonymize_run(
    text: Seq<char>,
    ents: Seq<RecognizerResult>,
    order: Seq<int>,
    ops: Map<Seq<char>, Operator>,
    default: Operator,
    vault: Option<Seq<EntryCore>>,
    salt: Seq<char>,
    k: int,
) -> Option<(Seq<char>, Seq<ItemCore>, Option<Seq<EntryCore>>)>
    decreases k,
{
    if k <= 0 {
        Some((text, Seq::empty(), vault))
    } else {
        match anonymize_run(text, ents, order, ops, default, vault, salt, k - 1) {
            None => None,
            Some(state) => match anonymize_step(
                text,
                ents[order[k - 1]],
                ops,
                default,
                state.0,
                state.2,
                salt,
            ) {
                None => None,
                Some(st) => Some((st.0, state.1.push(st.1), st.2)),
            },
        }
    }
}

/// The whole anonymization of `text`.
pub open spec fn anonymize_all(
    text: Seq<char>,
    ents: Seq<RecognizerResult>,
    ops: Map<Seq<char>, Operator>,
    default: Operator,
    vault: Option<Seq<EntryCore>>,
    salt: Seq<char>,
) -> Option<(Seq<char>, Seq<ItemCore>, Option<Seq<EntryCore>>)> {
    anonymize_run(text, ents, entity_order(ents), ops, default, vault, salt, ents.len() as int)
}

/// The vault's entries, when a vault is given.
pub open spec fn vault_entries(vault: Option<&mut Vault>) -> Option<Seq<EntryCore>> {
    match vault {
        Some(v) => Some(entries_core(v.entries@)),
        None => None,
    }
}

/// The vault's salt, when a vault is given.
pub open spec fn vault_salt(vault: Option<&mut Vault>) -> Seq<char> {
    match vault {
        Some(v) => v.salt@,
        None => Seq::empty(),
    }
}

proof fn lemma_run_none_persists(
    text: Seq<char>,
    ents: Seq<RecognizerResult>,
    order: Seq<int>,
    ops: Map<Seq<char>, Operator>,
    default: Operator,
    vault: Option<Seq<EntryCore>>,
    salt: Seq<char>,
    k: int,
    m: int,
)
    requires
        0 <= k <= m,
        anonymize_run(text, ents, order, ops, default, vault, salt, k) is None,
    ensures
        anonymize_run(text, ents, order, ops, default, vault, salt, m) is None,
    decreases m - k,
{
    if k < m {
        lemma_run_none_persists(text, ents, order, ops, default, vault, salt, k, m - 1);
    }
}

proof fn lemma_item_cores_reverse(items: Seq<AnonymizedItem>)
    ensures
        items.reverse().map_values(|i: AnonymizedItem| item_core(i)) == items.map_values(
            |i: AnonymizedItem| item_core(i),
        ).reverse(),
{
    assert(items.reverse().map_values(|i: AnonymizedItem| item_core(i)) =~= items.map_values(
        |i: AnonymizedItem| item_core(i),
    ).reverse());
}

impl Anonymizer {
    /// The replacement of one entity's text.
    fn replacement_for(
        op: &Operator,
        entity_type: &str,
        original: &str,
        vault: &mut Vault,
        use_vault: bool,
    ) -> (res: Option<String>)
        ensures
            match replacement(
                *op,
                entity_type@,
                original@,
                if use_vault {
                    Some(entries_core(old(vault).entries@))
                } else {
                    None
                },
                old(vault).salt@,
            ) {
                None => res is None,
                Some(rv) => {
                    &&& res matches Some(s) && s@ == rv.0
                    &&& use_vault ==> rv.1 == Some(entries_core(final(vault).entries@))
                    &&& !use_vault ==> *final(vault) == *old(vault) && rv.1 is None
                    &&& final(vault).salt == old(vault).salt
                    &&& final(vault).version == old(vault).version
                },
            },
            timestamps_kept(old(vault).entries@, final(vault).entries@),
    {
        proof {
            lemma_timestamps_kept_same(vault.entries@);
        }
        match op {
            Operator::Replace { new_value } => {
                if new_value.as_str().is_empty() {
                    Some(placeholder_text(entity_type))
                } else {
                    Some(new_value.clone())
                }
            },
            Operator::Mask { masking_char, chars_to_mask, from_end } => {
                Some(mask_text(original, *masking_char, *chars_to_mask, *from_end))
            },
            Operator::Hash { hash_type } => Some(hash_text(original, hash_type)),
            Operator::Redact => Some(String::new()),
            Operator::Vault => {
                if use_vault {
                    let empty = String::new();
                    let ghost before = vault.entries@;
                    let res = vault.try_tokenize_ctx(entity_type, original, empty.as_str());
                    proof {
                        if tokenize_core(
                            entries_core(before),
                            vault.salt@,
                            entity_type@,
                            original@,
                            empty@,
                        ) is Some {
                            lemma_tokenize_keeps_timestamps(
                                before,
                                vault.entries@,
                                vault.salt@,
                                entity_type@,
                                original@,
                                empty@,
                            );
                        }
                    }
                    res
                } else {
                    Some(placeholder_text(entity_type))
                }
            },
        }
    }

    /// Replaces one entity in the current text `result`.
    fn step(
        text: &str,
        e: &RecognizerResult,
        operators: &OperatorMap,
        default_operator: &Operator,
        vault: &mut Vault,
        use_vault: bool,
        result: &String,
    ) -> (res: Option<(String, AnonymizedItem)>)
        ensures
            match anonymize_step(
                text@,
                *e,
                operators@,
                *default_operator,
                result@,
                if use_vault {
                    Some(entries_core(old(vault).entries@))
                } else {
                    None
                },
                old(vault).salt@,
            ) {
                None => res is None,
                Some(st) => {
                    &&& res matches Some(r) && r.0@ == st.0 && item_core(r.1) == st.1
                    &&& use_vault ==> st.2 == Some(entries_core(final(vault).entries@))
                    &&& !use_vault ==> *final(vault) == *old(vault) && st.2 is None
                    &&& final(vault).salt == old(vault).salt
                    &&& final(vault).version == old(vault).version
                },
            },
            timestamps_kept(old(vault).entries@, final(vault).entries@),
    {
        reveal(anonymize_step);
        proof {
            lemma_timestamps_kept_same(vault.entries@);
        }
        if !check_byte_range(text, e.start, e.end) {
            return None;
        }
        let original = slice_bytes(text, e.start, e.end);
        let etype = e.entity_type.as_str();
        let op = match operators.get(etype) {
            Some(op) => op,
            None => default_operator,
        };
        let rep = match Self::replacement_for(op, etype, original, vault, use_vault) {
            Some(r) => r,
            None => {
                return None;
            },
        };
        if !check_byte_range(result.as_str(), e.start, e.end) {
            return None;
        }
        let rlen = str_byte_len(result.as_str());
        proof {
            vstd::utf8::encode_utf8_valid_utf8(result@);
            vstd::utf8::is_char_boundary_start_end_of_seq(encode_utf8(result@));
        }
        let mut next = owned(slice_bytes(result.as_str(), 0, e.start));
        append_str(&mut next, rep.as_str());
        append_str(&mut next, slice_bytes(result.as_str(), e.end, rlen));
        let item = AnonymizedItem {
            entity_type: owned(etype),
            start: e.start,
            end: e.end,
            original: owned(original),
            replacement: rep,
        };
        Some((next, item))
    }

    /// Replaces the entities one by one, the last-starting first; `None` at
    /// the first step that cannot be taken.
    fn run(
        text: &str,
        entities: &[RecognizerResult],
        operators: &OperatorMap,
        default_operator: &Operator,
        vault: &mut Vault,
        use_vault: bool,
    ) -> (res: Option<(String, Vec<AnonymizedItem>)>)
        ensures
            match anonymize_all(
                text@,
                entities@,
                operators@,
                *default_operator,
                if use_vault {
                    Some(entries_core(old(vault).entries@))
                } else {
                    None
                },
                old(vault).salt@,
            ) {
                None => res is None,
                Some(out) => {
                    &&& res matches Some(r) && r.0@ == out.0 && r.1@.map_values(
                        |i: AnonymizedItem| item_core(i),
                    ) == out.1
                    &&& use_vault ==> out.2 == Some(entries_core(final(vault).entries@))
                    &&& !use_vault ==> *final(vault) == *old(vault)
                    &&& final(vault).salt == old(vault).salt
                    &&& final(vault).version == old(vault).version
                },
            },
            timestamps_kept(old(vault).entries@, final(vault).entries@),
    {
        let n = entities.len();
        let mut keys: Vec<(u64, u64)> = Vec::new();
        let mut i: usize = 0;
        while i < n
            invariant
                i <= n,
                n == entities@.len(),
                keys@ == Seq::new(i as nat, |j: int| (entities@[j].start as u64, 0u64)),
            decreases n - i,
        {
            keys.push((entities[i].start as u64, 0));
            assert(keys@ =~= Seq::new((i + 1) as nat, |j: int| (entities@[j].start as u64, 0u64)));
            i = i + 1;
        }
        let order = stable_order_desc(&keys);
        let ghost ord = order@.map_values(|i: usize| i as int);
        assert(ord == entity_order(entities@));
        let ghost vault0 = if use_vault {
            Some(entries_core(vault.entries@))
        } else {
            None
        };
        let ghost salt = vault.salt@;
        let ghost start_vault = *vault;
        let mut result = owned(text);
        let mut items: Vec<AnonymizedItem> = Vec::new();
        let mut k: usize = 0;
        proof {
            lemma_timestamps_kept_same(vault.entries@);
        }
        while k < n
            invariant
                k <= n,
                n == entities@.len(),
                order@.len() == n,
                ord == order@.map_values(|i: usize| i as int),
                ord == entity_order(entities@),
                forall|j: int| 0 <= j < n ==> order@[j] < n,
                salt == vault.salt@,
                salt == old(vault).salt@,
                start_vault == *old(vault),
                vault0 == (if use_vault { Some(entries_core(old(vault).entries@)) } else { None }),
                vault.version == start_vault.version,
                vault.salt == start_vault.salt,
                !use_vault ==> *vault == start_vault,
                timestamps_kept(start_vault.entries@, vault.entries@),
                anonymize_run(text@, entities@, ord, operators@, *default_operator, vault0, salt, k as int) matches Some(state)
                    && state.0 == result@ && state.1 == items@.map_values(|i: AnonymizedItem| item_core(i))
                    && state.2 == (if use_vault { Some(entries_core(vault.entries@)) } else { None }),
            decreases n - k,
        {
            let e = &entities[order[k]];
            assert(ord[k as int] == order@[k as int] as int);
            let ghost state = anonymize_run(text@, entities@, ord, operators@, *default_operator, vault0, salt, k as int).unwrap();
            let ghost stepped = anonymize_step(text@, entities@[ord[k as int]], operators@, *default_operator, state.0, state.2, salt);
            assert(anonymize_run(text@, entities@, ord, operators@, *default_operator, vault0, salt, k + 1) == match stepped {
                None => None,
                Some(st) => Some((st.0, state.1.push(st.1), st.2)),
            });
            assert(*e == entities@[ord[k as int]]);
            assert(state.0 == result@);
            assert(state.2 == (if use_vault { Some(entries_core(vault.entries@)) } else { None }));
            assert(salt == vault.salt@);
            let ghost mid = vault.entries@;
            let stepped_res = Self::step(text, e, operators, default_operator, vault, use_vault, &result);
            proof {
                lemma_timestamps_kept_trans(start_vault.entries@, mid, vault.entries@);
            }
            assert(stepped_res is None ==> stepped is None);
            match stepped_res {
                Some((next, item)) => {
                    let ghost before_items = items@;
                    items.push(item);
                    assert(items@.map_values(|i: AnonymizedItem| item_core(i)) =~= before_items.map_values(
                        |i: AnonymizedItem| item_core(i),
                    ).push(item_core(items@.last())));
                    result = next;
                },
                None => {
                    proof {
                        lemma_run_none_persists(text@, entities@, ord, operators@, *default_operator, vault0, salt, k + 1, n as int);
                    }
                    return None;
                },
            }
            k = k + 1;
        }
        assert(anonymize_all(text@, entities@, operators@, *default_operator, vault0, salt) == anonymize_run(text@, entities@, ord, operators@, *default_operator, vault0, salt, n as int));
        Some((result, items))
    }

    /// Anonymizes `text`: every entity is replaced according to the operator
    /// chosen for its entity type (or the default operator), visiting the
    /// entities from the last-starting to the first; `Vault` operators
    /// tokenize through `vault` when one is given. The replacements are
    /// reported in the reverse of the order they were made.
    pub fn anonymize(
        text: &str,
        entities: &[RecognizerResult],
        operators: &OperatorMap,
        default_operator: &Operator,
        vault: Option<&mut Vault>,
    ) -> (res: AnonymizedResult)
        requires
            anonymize_all(
                text@,
                entities@,
                operators@,
                *default_operator,
                vault_entries(vault),
                vault_salt(vault),
            ) is Some,
        ensures
            ({
                let out = anonymize_all(
                    text@,
                    entities@,
                    operators@,
                    *default_operator,
                    vault_entries(vault),
                    vault_salt(vault),
                ).unwrap();
                &&& res.text@ == out.0
                &&& res.items@.map_values(|i: AnonymizedItem| item_core(i)) == out.1.reverse()
                &&& vault matches Some(v) ==> {
                    &&& out.2 == Some(entries_core(final(v).entries@))
                    &&& final(v).salt == v.salt
                    &&& final(v).version == v.version
                    &&& timestamps_kept(v.entries@, final(v).entries@)
                }
            }),
    {
        let r = match vault {
            Some(v) => Self::run(text, entities, operators, default_operator, v, true),
            None => {
                let mut unused = Vault { version: 2, salt: String::new(), entries: Vec::new() };
                Self::run(text, entities, operators, default_operator, &mut unused, false)
            },
        };
        match r {
            Some((t, mut items)) => {
                let ghost fwd = items@;
                let mut reversed: Vec<AnonymizedItem> = Vec::new();
                while items.len() > 0
                    invariant
                        items@.len() <= fwd.len(),
                        items@ == fwd.take(items@.len() as int),
                        reversed@ == fwd.skip(items@.len() as int).reverse(),
                    decreases items@.len(),
                {
                    let ghost n = items@.len();
                    let x = items.pop().unwrap();
                    reversed.push(x);
                    assert(reversed@ =~= fwd.skip(n - 1).reverse());
                    assert(items@ =~= fwd.take(n - 1));
                }
                assert(fwd.skip(0) == fwd);
                proof {
                    lemma_item_cores_reverse(fwd);
                }
                AnonymizedResult { text: t, items: reversed }
            },
            None => {
                assert(false);
                AnonymizedResult { text: String::new(), items: Vec::new() }
            },
        }
    }

    /// Anonymizes where anonymization can complete: `None`, with the vault
    /// unchanged, where an entity's range cannot be sliced (in the text or
    /// in the text as rewritten so far) or a tokenization cannot proceed;
    /// otherwise the same as `anonymize`.
    pub fn try_anonymize(
        text: &str,
        entities: &[RecognizerResult],
        operators: &OperatorMap,
        default_operator: &Operator,
        vault: Option<&mut Vault>,
    ) -> (res: Option<AnonymizedResult>)
        ensures
            anonymize_all(
                text@,
                entities@,
                operators@,
                *default_operator,
                vault_entries(vault),
                vault_salt(vault),
            ) is None ==> res is None && (vault matches Some(v) ==> *final(v) == *v),
            anonymize_all(
                text@,
                entities@,
                operators@,
                *default_operator,
                vault_entries(vault),
                vault_salt(vault),
            ) matches Some(out) ==> {
                &&& res matches Some(r) && r.text@ == out.0 && r.items@.map_values(
                    |i: AnonymizedItem| item_core(i),
                ) == out.1.reverse()
                &&& vault matches Some(v) ==> {
                    &&& out.2 == Some(entries_core(final(v).entries@))
                    &&& final(v).salt == v.salt
                    &&& final(v).version == v.version
                    &&& timestamps_kept(v.entries@, final(v).entries@)
                }
            },
    {
        match vault {
            Some(v) => {
                let mut trial = v.duplicate();
                match Self::run(text, entities, operators, default_operator, &mut trial, true) {
                    None => None,
                    Some(_) => Some(
                        Self::anonymize(text, entities, operators, default_operator, Some(v)),
                    ),
                }
            },
            None => {
                let mut unused = Vault { version: 2, salt: String::new(), entries: Vec::new() };
                match Self::run(text, entities, operators, default_operator, &mut unused, false) {
                    None => None,
                    Some(_) => Some(
                        Self::anonymize(text, entities, operators, default_operator, None),
                    ),
                }
            },
        }
    }
}

} // verus!
