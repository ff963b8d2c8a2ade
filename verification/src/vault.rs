//! A reversible tokenization vault.
//!
//! The vault maps each (category, original, context) triple to a token of
//! the form `[CATEGORY:xxxxxxxx]`, derived from a per-vault salt with FNV-1a,
//! and remembers the mapping so that a text that carries tokens can be
//! restored. The same triple always gets the same token; a token that
//! already stands for another original or context is never handed out again.
use vstd::prelude::*;
use vstd::utf8::encode_utf8;

use crate::clock::{is_utc_timestamp, unix_time, utc_now};
use crate::order::{stable_order, stable_order_desc};
use crate::text::{
    append_str, chars_of, decimal_text, fnv1a, fnv1a_str, hex_fixed, owned, push_char,
    push_decimal, push_hex, replace_all, replace_chars, string_from_chars, to_uppercase,
    unicode_uppercase,
};

verus! {

/// One remembered mapping from an original value to its token.
#[derive(Debug)]
pub struct VaultEntry {
    pub token: String,
    pub original: String,
    pub category: String,
    pub context: String,
    pub created_at: String,
    pub last_used: String,
    pub use_count: u32,
}

/// The vault: a format version, the salt that keys its tokens, and its entries.
#[derive(Debug)]
pub struct Vault {
    pub version: u32,
    pub salt: String,
    pub entries: Vec<VaultEntry>,
}

// ---------------------------------------------------------------------------
// The model of a vault
// ---------------------------------------------------------------------------

/// The part of an entry that tokenization reads and writes:
/// `(token, original, category, context, use_count)`.
pub type EntryCore = (Seq<char>, Seq<char>, Seq<char>, Seq<char>, u32);

pub open spec fn entry_core(e: VaultEntry) -> EntryCore {
    (e.token@, e.original@, e.category@, e.context@, e.use_count)
}

/// The entries of a vault, without their timestamps.
pub open spec fn entries_core(es: Seq<VaultEntry>) -> Seq<EntryCore> {
    es.map_values(|e: VaultEntry| entry_core(e))
}

/// The lookup key of a triple: its category, original and context, compared
/// part by part.
pub type VaultKey = (Seq<char>, Seq<char>, Seq<char>);

pub open spec fn vault_key(category: Seq<char>, original: Seq<char>, context: Seq<char>) -> VaultKey {
    (category, original, context)
}

pub open spec fn core_key(c: EntryCore) -> VaultKey {
    vault_key(c.2, c.1, c.3)
}

/// The position of the last entry whose key is `k`; keys are looked up the
/// way an index that is rebuilt in entry order and then kept up to date
/// finds them.
pub open spec fn find_key(es: Seq<EntryCore>, k: VaultKey) -> Option<int>
    decreases es.len(),
{
    if es.len() == 0 {
        None
    } else if core_key(es.last()) == k {
        Some(es.len() - 1)
    } else {
        find_key(es.drop_last(), k)
    }
}

/// The text hashed for the `attempt`-th candidate token of a triple.
pub open spec fn token_input(
    salt: Seq<char>,
    category: Seq<char>,
    original: Seq<char>,
    context: Seq<char>,
    attempt: nat,
) -> Seq<char> {
    let base = salt + seq![':'] + category + seq![':'] + original;
    if attempt == 0 {
        if context.len() == 0 {
            base
        } else {
            base + seq![':'] + context
        }
    } else {
        base + seq![':'] + context + seq![':'] + decimal_text(attempt)
    }
}

/// A token: the uppercased category and the FNV-1a hash of `input` in
/// eight lowercase hexadecimal digits, as `[CATEGORY:xxxxxxxx]`.
pub open spec fn token_text(category: Seq<char>, input: Seq<char>) -> Seq<char> {
    seq!['['] + unicode_uppercase(category) + seq![':'] + hex_fixed(
        fnv1a(encode_utf8(input)) as nat,
        8,
    ) + seq![']']
}

pub open spec fn candidate_token(
    salt: Seq<char>,
    category: Seq<char>,
    original: Seq<char>,
    context: Seq<char>,
    attempt: nat,
) -> Seq<char> {
    token_text(category, token_input(salt, category, original, context, attempt))
}

/// `token` already stands for another original or another context.
pub open spec fn token_taken(
    es: Seq<EntryCore>,
    token: Seq<char>,
    original: Seq<char>,
    context: Seq<char>,
) -> bool {
    exists|i: int|
        0 <= i < es.len() && (#[trigger] es[i]).0 == token && (es[i].1 != original || es[i].3
            != context)
}

/// The first attempt, from `from` on and at most `u32::MAX`, whose candidate
/// token is not taken.
pub open spec fn first_free_attempt(
    es: Seq<EntryCore>,
    salt: Seq<char>,
    category: Seq<char>,
    original: Seq<char>,
    context: Seq<char>,
    from: nat,
) -> Option<nat>
    decreases u32::MAX + 1 - from,
{
    if from > u32::MAX {
        None
    } else if !token_taken(
        es,
        candidate_token(salt, category, original, context, from),
        original,
        context,
    ) {
        Some(from)
    } else {
        first_free_attempt(es, salt, category, original, context, from + 1)
    }
}

/// What tokenization does to the entries and which token it returns:
/// a known triple gets its token back and its use count raised; a new
/// triple gets the first free candidate token and a new entry. `None` where
/// the use count would overflow or no candidate is free.
pub open spec fn tokenize_core(
    es: Seq<EntryCore>,
    salt: Seq<char>,
    category: Seq<char>,
    original: Seq<char>,
    context: Seq<char>,
) -> Option<(Seq<EntryCore>, Seq<char>)> {
    match find_key(es, vault_key(category, original, context)) {
        Some(i) => {
            let e = es[i];
            if e.4 == u32::MAX {
                None
            } else {
                Some((es.update(i, (e.0, e.1, e.2, e.3, (e.4 + 1) as u32)), e.0))
            }
        },
        None => match first_free_attempt(es, salt, category, original, context, 0) {
            Some(a) => {
                let t = candidate_token(salt, category, original, context, a);
                Some((es.push((t, original, category, context, 1)), t))
            },
            None => None,
        },
    }
}

/// Timestamps after a tokenization: every entry but the touched one is
/// unchanged; the touched one was last used at a well-formed UTC time and,
/// if new, was created then too.
pub open spec fn tokenize_timestamps(
    before: Seq<VaultEntry>,
    after: Seq<VaultEntry>,
    k: VaultKey,
) -> bool {
    &&& forall|j: int|
        0 <= j < before.len() && j != touched_index(before, k) ==> after[j] == before[j]
    &&& exists|secs: nat| is_utc_timestamp(secs, after[touched_index(before, k)].last_used@)
    &&& (touched_index(before, k) < before.len() ==> after[touched_index(before, k)].created_at
        == before[touched_index(before, k)].created_at)
    &&& (touched_index(before, k) == before.len() ==> after[touched_index(
        before,
        k,
    )].created_at == after[touched_index(before, k)].last_used)
}

/// The position of the entry that tokenizing the key `k` uses: the entry
/// with that key, or a new one at the end.
pub open spec fn touched_index(before: Seq<VaultEntry>, k: VaultKey) -> int {
    match find_key(entries_core(before), k) {
        Some(i) => i,
        None => before.len() as int,
    }
}

/// `t` is a well-formed UTC timestamp of some moment.
pub open spec fn stamped(t: Seq<char>) -> bool {
    exists|secs: nat| is_utc_timestamp(secs, t)
}

/// What tokenizations leave of the timestamps: every entry that was there
/// keeps its creation time and either keeps its last use or was used again
/// at a well-formed UTC time; every entry added was created and last used
/// at well-formed UTC times.
pub open spec fn timestamps_kept(before: Seq<VaultEntry>, after: Seq<VaultEntry>) -> bool {
    &&& before.len() <= after.len()
    &&& forall|j: int|
        0 <= j < before.len() ==> (#[trigger] after[j]).created_at == before[j].created_at && (
        after[j].last_used == before[j].last_used || stamped(after[j].last_used@))
    &&& forall|j: int|
        before.len() <= j < after.len() ==> stamped((#[trigger] after[j]).created_at@) && stamped(
            after[j].last_used@,
        )
}

/// Restores a text: the stored originals replace their tokens, longest
/// token first (ties keep entry order), each replacement applied to the
/// result of the one before.
pub open spec fn detokenize_text(es: Seq<EntryCore>, text: Seq<char>) -> Seq<char> {
    replace_in_order(es, restore_order(es), text)
}

/// The sort keys of restoring: the length of each token in UTF-8 bytes.
pub open spec fn restore_keys(es: Seq<EntryCore>) -> Seq<(u64, u64)> {
    Seq::new(es.len(), |i: int| (encode_utf8(es[i].0).len() as u64, 0u64))
}

/// The order in which restoring visits the entries: longest token first,
/// ties in entry order.
pub open spec fn restore_order(es: Seq<EntryCore>) -> Seq<int> {
    stable_order(restore_keys(es), es.len() as int)
}

/// Applies the replacements of the entries at positions `order`, in turn.
pub open spec fn replace_in_order(es: Seq<EntryCore>, order: Seq<int>, text: Seq<char>) -> Seq<
    char,
>
    decreases order.len(),
{
    if order.len() == 0 {
        text
    } else {
        replace_all(
            replace_in_order(es, order.drop_last(), text),
            es[order.last()].0,
            es[order.last()].1,
        )
    }
}

/// The position of the first entry whose token is `t`.
pub open spec fn first_with_token(es: Seq<EntryCore>, t: Seq<char>) -> Option<int>
    decreases es.len(),
{
    if es.len() == 0 {
        None
    } else if es[0].0 == t {
        Some(0)
    } else {
        match first_with_token(es.drop_first(), t) {
            Some(i) => Some(i + 1),
            None => None,
        }
    }
}

/// The lowercase hexadecimal text of some bytes, two digits per byte.
pub open spec fn hex_bytes(b: Seq<u8>) -> Seq<char>
    decreases b.len(),
{
    if b.len() == 0 {
        seq![]
    } else {
        hex_bytes(b.drop_last()) + hex_fixed(b.last() as nat, 2)
    }
}

/// The low 16 bytes of `t`, least significant first.
pub open spec fn le_bytes(t: nat, n: nat) -> Seq<u8>
    decreases n,
{
    if n == 0 {
        seq![]
    } else {
        seq![(t % 256) as u8] + le_bytes(t / 256, (n - 1) as nat)
    }
}

/// A salt: the hexadecimal text of sixteen bytes.
pub open spec fn is_salt(s: Seq<char>) -> bool {
    exists|b: Seq<u8>| b.len() == 16 && s == hex_bytes(b)
}

// ---------------------------------------------------------------------------
// Outside calls
// ---------------------------------------------------------------------------

#[verifier::external_type_specification]
#[verifier::external_body]
pub struct ExRandomError(getrandom::Error);

/// Fills the buffer with random bytes from the system, by `getrandom::getrandom`.
/// Trusted: nothing is stated of the bytes, nor of when an error comes back.
#[verifier::external_body]
fn fill_random(dest: &mut [u8; 16]) -> (res: Result<(), getrandom::Error>) {
    getrandom::getrandom(dest)
}

// ---------------------------------------------------------------------------
// Salt
// ---------------------------------------------------------------------------

/// The hexadecimal text of the bytes (two lowercase digits each).
pub fn salt_from_bytes(bytes: &[u8; 16]) -> (res: String)
    ensures
        res@ == hex_bytes(bytes@),
{
    let mut res = String::new();
    let mut i: usize = 0;
    while i < 16
        invariant
            i <= 16,
            bytes@.len() == 16,
            res@ == hex_bytes(bytes@.take(i as int)),
        decreases 16 - i,
    {
        assert(bytes@.take(i + 1).drop_last() == bytes@.take(i as int));
        push_hex(&mut res, bytes[i] as u32, 2);
        i = i + 1;
    }
    assert(bytes@.take(16) == bytes@);
    res
}

/// The low sixteen bytes of `t`, least significant first (`(t >> 8i) & 0xFF`).
pub fn bytes_from_nanos(t: u128) -> (res: [u8; 16])
    ensures
        res@ == le_bytes(t as nat, 16),
{
    let mut res: [u8; 16] = [0u8; 16];
    let mut v: u128 = t;
    let mut i: usize = 0;
    assert(res@.take(0) + le_bytes(t as nat, 16) == le_bytes(t as nat, 16));
    while i < 16
        invariant
            i <= 16,
            res@.len() == 16,
            res@.take(i as int) + le_bytes(v as nat, (16 - i) as nat) == le_bytes(t as nat, 16),
        decreases 16 - i,
    {
        let ghost before = res@.take(i as int);
        let ghost rest = le_bytes(v as nat, (16 - i) as nat);
        assert(rest == seq![(v % 256) as u8] + le_bytes((v / 256) as nat, (16 - i - 1) as nat));
        res[i] = (v % 256) as u8;
        assert(res@.take(i + 1) == before + seq![(v % 256) as u8]);
        assert(res@.take(i + 1) + le_bytes((v / 256) as nat, (16 - i - 1) as nat) =~= before
            + rest);
        v = v / 256;
        i = i + 1;
    }
    assert(res@.take(16) == res@);
    assert(le_bytes(v as nat, 0) =~= Seq::<u8>::empty());
    assert(res@ =~= le_bytes(t as nat, 16));
    res
}

/// A fresh salt: sixteen random bytes, or, where the system cannot supply
/// them, the bytes of the current time in nanoseconds; as hexadecimal text.
pub fn generate_salt() -> (res: String)
    ensures
        is_salt(res@),
{
    let mut bytes: [u8; 16] = [0u8; 16];
    if fill_random(&mut bytes).is_err() {
        let (secs, nanos) = unix_time();
        let t: u128 = secs as u128 * 1_000_000_000 + nanos as u128;
        bytes = bytes_from_nanos(t);
    }
    let res = salt_from_bytes(&bytes);
    assert(bytes@.len() == 16 && res@ == hex_bytes(bytes@));
    res
}

impl Default for Vault {
    fn default() -> (v: Self)
        ensures
            v.version == 2,
            is_salt(v.salt@),
            v.entries@.len() == 0,
    {
        Vault { version: 2, salt: generate_salt(), entries: Vec::new() }
    }
}

// ---------------------------------------------------------------------------
// Helpers on entries
// ---------------------------------------------------------------------------

/// A token for a category and a hash input.
fn stable_token(category: &str, input: &str) -> (res: String)
    ensures
        res@ == token_text(category@, input@),
{
    let hash = fnv1a_str(input);
    let mut t = String::new();
    push_char(&mut t, '[');
    let upper = to_uppercase(category);
    append_str(&mut t, upper.as_str());
    push_char(&mut t, ':');
    push_hex(&mut t, hash, 8);
    push_char(&mut t, ']');
    t
}

/// An owned copy of an entry.
fn copy_entry(e: &VaultEntry) -> (res: VaultEntry)
    ensures
        res == *e,
{
    VaultEntry {
        token: e.token.clone(),
        original: e.original.clone(),
        category: e.category.clone(),
        context: e.context.clone(),
        created_at: e.created_at.clone(),
        last_used: e.last_used.clone(),
        use_count: e.use_count,
    }
}

proof fn lemma_entries_core_index(es: Seq<VaultEntry>, i: int)
    requires
        0 <= i < es.len(),
    ensures
        entries_core(es)[i] == entry_core(es[i]),
        entries_core(es).len() == es.len(),
{
}

proof fn lemma_find_key(es: Seq<EntryCore>, k: VaultKey)
    ensures
        find_key(es, k) matches Some(i) ==> 0 <= i < es.len() && core_key(es[i]) == k,
        find_key(es, k) is None ==> forall|j: int| 0 <= j < es.len() ==> core_key(#[trigger] es[j]) != k,
    decreases es.len(),
{
    if es.len() > 0 {
        lemma_find_key(es.drop_last(), k);
        if core_key(es.last()) != k {
            assert forall|j: int| 0 <= j < es.len() - 1 implies es[j] == es.drop_last()[j] by {}
        }
    }
}

proof fn lemma_timestamps_after(
    before: Seq<VaultEntry>,
    after: Seq<VaultEntry>,
    k: VaultKey,
    t: int,
    secs: nat,
)
    requires
        t == touched_index(before, k),
        0 <= t <= before.len(),
        t < after.len(),
        forall|j: int| 0 <= j < before.len() && j != t ==> after[j] == before[j],
        is_utc_timestamp(secs, after[t].last_used@),
        t < before.len() ==> after[t].created_at == before[t].created_at,
        t == before.len() ==> after[t].created_at == after[t].last_used,
    ensures
        tokenize_timestamps(before, after, k),
{
    assert(exists|s: nat| is_utc_timestamp(s, after[t].last_used@));
}

pub proof fn lemma_timestamps_kept_same(es: Seq<VaultEntry>)
    ensures
        timestamps_kept(es, es),
{
}

pub proof fn lemma_timestamps_kept_trans(a: Seq<VaultEntry>, b: Seq<VaultEntry>, c: Seq<VaultEntry>)
    requires
        timestamps_kept(a, b),
        timestamps_kept(b, c),
    ensures
        timestamps_kept(a, c),
{
    assert forall|j: int| 0 <= j < a.len() implies (#[trigger] c[j]).created_at == a[j].created_at
        && (c[j].last_used == a[j].last_used || stamped(c[j].last_used@)) by {
        assert(c[j].created_at == b[j].created_at);
    }
    assert forall|j: int| a.len() <= j < c.len() implies stamped((#[trigger] c[j]).created_at@)
        && stamped(c[j].last_used@) by {
        if j < b.len() {
            assert(c[j].created_at == b[j].created_at);
            assert(stamped(b[j].created_at@) && stamped(b[j].last_used@));
        }
    }
}

/// One tokenization keeps the timestamps in the sense of `timestamps_kept`.
pub proof fn lemma_tokenize_keeps_timestamps(
    before: Seq<VaultEntry>,
    after: Seq<VaultEntry>,
    salt: Seq<char>,
    category: Seq<char>,
    original: Seq<char>,
    context: Seq<char>,
)
    requires
        tokenize_core(entries_core(before), salt, category, original, context) matches Some(r)
            && entries_core(after) == r.0,
        tokenize_timestamps(before, after, vault_key(category, original, context)),
    ensures
        timestamps_kept(before, after),
{
    let key = vault_key(category, original, context);
    lemma_find_key(entries_core(before), key);
    assert(entries_core(after).len() == after.len());
    let t = touched_index(before, key);
    let secs = choose|secs: nat| is_utc_timestamp(secs, after[t].last_used@);
    match find_key(entries_core(before), key) {
        Some(i) => {
            assert(after.len() == before.len());
            assert forall|j: int| 0 <= j < before.len() implies (#[trigger] after[j]).created_at
                == before[j].created_at && (after[j].last_used == before[j].last_used || stamped(
                after[j].last_used@,
            )) by {
                if j == i {
                    assert(is_utc_timestamp(secs, after[j].last_used@));
                    assert(stamped(after[j].last_used@));
                }
            }
        },
        None => {
            assert(after.len() == before.len() + 1);
            assert forall|j: int| before.len() <= j < after.len() implies stamped(
                (#[trigger] after[j]).created_at@,
            ) && stamped(after[j].last_used@) by {
                assert(j == t);
                assert(is_utc_timestamp(secs, after[j].created_at@));
                assert(is_utc_timestamp(secs, after[j].last_used@));
            }
        },
    }
}

impl Vault {
    /// A new, empty vault of version 2 with a fresh salt.
    pub fn new() -> (v: Self)
        ensures
            v.version == 2,
            is_salt(v.salt@),
            v.entries@.len() == 0,
    {
        Self::default()
    }

    /// The number of entries.
    pub fn entry_count(&self) -> (n: usize)
        ensures
            n == self.entries@.len(),
    {
        self.entries.len()
    }

    /// A vault read back from storage: one of version 1, or without a salt,
    /// gets a fresh salt and version 2; its entries keep their tokens.
    pub fn from_stored(version: u32, salt: String, entries: Vec<VaultEntry>) -> (v: Self)
        ensures
            v.entries == entries,
            version >= 2 && salt@.len() > 0 ==> v.version == version && v.salt == salt,
            !(version >= 2 && salt@.len() > 0) ==> v.version == 2 && is_salt(v.salt@),
    {
        if version < 2 || salt.as_str().is_empty() {
            Vault { version: 2, salt: generate_salt(), entries }
        } else {
            Vault { version, salt, entries }
        }
    }

    /// The position of the last entry of the triple.
    fn find_key_exec(&self, category: &str, original: &str, context: &str) -> (res: Option<usize>)
        ensures
            match res {
                Some(i) => find_key(
                    entries_core(self.entries@),
                    vault_key(category@, original@, context@),
                ) == Some(i as int),
                None => find_key(
                    entries_core(self.entries@),
                    vault_key(category@, original@, context@),
                ) is None,
            },
    {
        let ghost es = entries_core(self.entries@);
        let ghost key = vault_key(category@, original@, context@);
        let c = owned(category);
        let o = owned(original);
        let x = owned(context);
        let mut i: usize = self.entries.len();
        assert(es.take(i as int) == es);
        while i > 0
            invariant
                i <= self.entries@.len(),
                es == entries_core(self.entries@),
                key == vault_key(category@, original@, context@),
                c@ == category@,
                o@ == original@,
                x@ == context@,
                find_key(es, key) == find_key(es.take(i as int), key),
            decreases i,
        {
            let e = &self.entries[i - 1];
            proof {
                lemma_entries_core_index(self.entries@, i - 1);
                assert(es.take(i as int).drop_last() == es.take(i - 1));
                assert(es.take(i as int).last() == es[i - 1]);
            }
            if e.category == c && e.original == o && e.context == x {
                return Some(i - 1);
            }
            i = i - 1;
        }
        None
    }

    /// Whether `token` already stands for another original or context.
    fn token_taken_exec(&self, token: &String, original: &String, context: &String) -> (res: bool)
        ensures
            res == token_taken(entries_core(self.entries@), token@, original@, context@),
    {
        let ghost es = entries_core(self.entries@);
        let mut i: usize = 0;
        while i < self.entries.len()
            invariant
                i <= self.entries@.len(),
                es == entries_core(self.entries@),
                forall|j: int|
                    0 <= j < i ==> !((#[trigger] es[j]).0 == token@ && (es[j].1 != original@
                        || es[j].3 != context@)),
            decreases self.entries@.len() - i,
        {
            let e = &self.entries[i];
            proof {
                lemma_entries_core_index(self.entries@, i as int);
            }
            if e.token == *token && (e.original != *original || e.context != *context) {
                return true;
            }
            i = i + 1;
        }
        false
    }

    /// The hash input of the `attempt`-th candidate token.
    fn token_input_exec(
        &self,
        category: &str,
        original: &str,
        context: &str,
        attempt: u32,
    ) -> (res: String)
        ensures
            res@ == token_input(self.salt@, category@, original@, context@, attempt as nat),
    {
        let mut s = self.salt.clone();
        push_char(&mut s, ':');
        append_str(&mut s, category);
        push_char(&mut s, ':');
        append_str(&mut s, original);
        if attempt == 0 {
            if !context.is_empty() {
                push_char(&mut s, ':');
                append_str(&mut s, context);
            }
        } else {
            push_char(&mut s, ':');
            append_str(&mut s, context);
            push_char(&mut s, ':');
            push_decimal(&mut s, attempt as u64);
        }
        s
    }

    /// The first free candidate token of a triple, searching the attempts
    /// in order; `None` when every attempt up to `u32::MAX` is taken.
    fn free_token(&self, category: &str, original: &str, context: &str) -> (res: Option<String>)
        ensures
            match first_free_attempt(
                entries_core(self.entries@),
                self.salt@,
                category@,
                original@,
                context@,
                0,
            ) {
                Some(a) => res matches Some(t) && t@ == candidate_token(
                    self.salt@,
                    category@,
                    original@,
                    context@,
                    a,
                ),
                None => res is None,
            },
    {
        let ghost es = entries_core(self.entries@);
        let orig = owned(original);
        let ctx = owned(context);
        let mut attempt: u32 = 0;
        loop
            invariant
                es == entries_core(self.entries@),
                orig@ == original@,
                ctx@ == context@,
                first_free_attempt(es, self.salt@, category@, original@, context@, 0)
                    == first_free_attempt(
                    es,
                    self.salt@,
                    category@,
                    original@,
                    context@,
                    attempt as nat,
                ),
            decreases u32::MAX - attempt,
        {
            let input = self.token_input_exec(category, original, context, attempt);
            let token = stable_token(category, input.as_str());
            if !self.token_taken_exec(&token, &orig, &ctx) {
                return Some(token);
            }
            if attempt == u32::MAX {
                assert(first_free_attempt(
                    es,
                    self.salt@,
                    category@,
                    original@,
                    context@,
                    (attempt + 1) as nat,
                ) is None);
                return None;
            }
            attempt = attempt + 1;
        }
    }

    /// Tokenizes `original` in `category` under `context`: a triple seen
    /// before gets its token back (its use count is raised and its last use
    /// stamped); a new triple gets a new entry with the first candidate token
    /// that does not already stand for another value.
    pub fn tokenize_ctx(&mut self, category: &str, original: &str, context: &str) -> (token: String)
        requires
            tokenize_core(
                entries_core(old(self).entries@),
                old(self).salt@,
                category@,
                original@,
                context@,
            ) is Some,
        ensures
            ({
                let r = tokenize_core(
                    entries_core(old(self).entries@),
                    old(self).salt@,
                    category@,
                    original@,
                    context@,
                ).unwrap();
                &&& entries_core(final(self).entries@) == r.0
                &&& token@ == r.1
            }),
            final(self).salt == old(self).salt,
            final(self).version == old(self).version,
            tokenize_timestamps(
                old(self).entries@,
                final(self).entries@,
                vault_key(category@, original@, context@),
            ),
    {
        proof {
            lemma_find_key(entries_core(self.entries@), vault_key(category@, original@, context@));
        }
        let found = self.find_key_exec(category, original, context);
        let fresh = match found {
            Some(_) => None,
            None => self.free_token(category, original, context),
        };
        self.tokenize_with(category, original, context, found, fresh)
    }

    /// The body of tokenization, given where the triple's key was found and,
    /// for a new triple, its first free candidate token.
    fn tokenize_with(
        &mut self,
        category: &str,
        original: &str,
        context: &str,
        found: Option<usize>,
        fresh: Option<String>,
    ) -> (token: String)
        requires
            tokenize_core(
                entries_core(old(self).entries@),
                old(self).salt@,
                category@,
                original@,
                context@,
            ) is Some,
            match found {
                Some(i) => find_key(
                    entries_core(old(self).entries@),
                    vault_key(category@, original@, context@),
                ) == Some(i as int),
                None => find_key(
                    entries_core(old(self).entries@),
                    vault_key(category@, original@, context@),
                ) is None && match first_free_attempt(
                    entries_core(old(self).entries@),
                    old(self).salt@,
                    category@,
                    original@,
                    context@,
                    0,
                ) {
                    Some(a) => fresh matches Some(t) && t@ == candidate_token(
                        old(self).salt@,
                        category@,
                        original@,
                        context@,
                        a,
                    ),
                    None => false,
                },
            },
        ensures
            ({
                let r = tokenize_core(
                    entries_core(old(self).entries@),
                    old(self).salt@,
                    category@,
                    original@,
                    context@,
                ).unwrap();
                &&& entries_core(final(self).entries@) == r.0
                &&& token@ == r.1
            }),
            final(self).salt == old(self).salt,
            final(self).version == old(self).version,
            tokenize_timestamps(
                old(self).entries@,
                final(self).entries@,
                vault_key(category@, original@, context@),
            ),
    {
        let ghost key = vault_key(category@, original@, context@);
        let now = utc_now();
        proof {
            lemma_find_key(entries_core(self.entries@), key);
        }
        let ghost before = self.entries@;
        let ghost secs = choose|secs: nat| is_utc_timestamp(secs, now@);
        assert(is_utc_timestamp(secs, now@));
        match found {
            Some(i) => {
                let token = self.touch_entry(i, now);
                proof {
                    lemma_timestamps_after(before, self.entries@, key, i as int, secs);
                }
                token
            },
            None => {
                let token = match fresh {
                    Some(t) => t,
                    None => {
                        assert(false);
                        String::new()
                    },
                };
                let token = self.add_entry(token, category, original, context, now);
                proof {
                    lemma_timestamps_after(before, self.entries@, key, before.len() as int, secs);
                }
                token
            },
        }
    }

    /// Marks entry `i` as used again at `now` and returns its token.
    fn touch_entry(&mut self, i: usize, now: String) -> (token: String)
        requires
            i < old(self).entries@.len(),
            old(self).entries@[i as int].use_count < u32::MAX,
        ensures
            ({
                let es = entries_core(old(self).entries@);
                let e = es[i as int];
                &&& entries_core(final(self).entries@) == es.update(
                    i as int,
                    (e.0, e.1, e.2, e.3, (e.4 + 1) as u32),
                )
                &&& token@ == e.0
            }),
            final(self).entries@.len() == old(self).entries@.len(),
            forall|j: int|
                0 <= j < old(self).entries@.len() && j != i ==> final(self).entries@[j] == old(
                    self,
                ).entries@[j],
            final(self).entries@[i as int].last_used == now,
            final(self).entries@[i as int].created_at == old(self).entries@[i as int].created_at,
            final(self).salt == old(self).salt,
            final(self).version == old(self).version,
    {
        let ghost es = entries_core(self.entries@);
        let e = &self.entries[i];
        let token = e.token.clone();
        let updated = VaultEntry {
            token: e.token.clone(),
            original: e.original.clone(),
            category: e.category.clone(),
            context: e.context.clone(),
            created_at: e.created_at.clone(),
            last_used: now,
            use_count: e.use_count + 1,
        };
        self.entries.set(i, updated);
        assert(entries_core(self.entries@) =~= es.update(
            i as int,
            (es[i as int].0, es[i as int].1, es[i as int].2, es[i as int].3, (es[i as int].4
                + 1) as u32),
        ));
        token
    }

    /// Appends a new entry for a triple, created and last used at `now`.
    fn add_entry(
        &mut self,
        token: String,
        category: &str,
        original: &str,
        context: &str,
        now: String,
    ) -> (res: String)
        ensures
            entries_core(final(self).entries@) == entries_core(old(self).entries@).push(
                (token@, original@, category@, context@, 1u32),
            ),
            res == token,
            final(self).entries@.len() == old(self).entries@.len() + 1,
            forall|j: int|
                0 <= j < old(self).entries@.len() ==> final(self).entries@[j] == old(
                    self,
                ).entries@[j],
            final(self).entries@[old(self).entries@.len() as int].last_used == now,
            final(self).entries@[old(self).entries@.len() as int].created_at == now,
            final(self).salt == old(self).salt,
            final(self).version == old(self).version,
    {
        let ghost es = entries_core(self.entries@);
        let entry = VaultEntry {
            token: token.clone(),
            original: owned(original),
            category: owned(category),
            context: owned(context),
            created_at: now.clone(),
            last_used: now,
            use_count: 1,
        };
        self.entries.push(entry);
        assert(entries_core(self.entries@) =~= es.push(
            (token@, original@, category@, context@, 1u32),
        ));
        token
    }

    /// Tokenizes without a context (the context is empty).
    pub fn tokenize(&mut self, category: &str, original: &str) -> (token: String)
        requires
            tokenize_core(
                entries_core(old(self).entries@),
                old(self).salt@,
                category@,
                original@,
                Seq::empty(),
            ) is Some,
        ensures
            ({
                let r = tokenize_core(
                    entries_core(old(self).entries@),
                    old(self).salt@,
                    category@,
                    original@,
                    Seq::empty(),
                ).unwrap();
                &&& entries_core(final(self).entries@) == r.0
                &&& token@ == r.1
            }),
            final(self).salt == old(self).salt,
            final(self).version == old(self).version,
            tokenize_timestamps(
                old(self).entries@,
                final(self).entries@,
                vault_key(category@, original@, Seq::empty()),
            ),
    {
        let empty = String::new();
        self.tokenize_ctx(category, original, empty.as_str())
    }

    /// Tokenizes without a context where it can: `None`, with the vault
    /// unchanged, where `tokenize` cannot proceed.
    pub fn try_tokenize(&mut self, category: &str, original: &str) -> (res: Option<String>)
        ensures
            tokenize_core(
                entries_core(old(self).entries@),
                old(self).salt@,
                category@,
                original@,
                Seq::empty(),
            ) is None ==> res is None && *final(self) == *old(self),
            tokenize_core(
                entries_core(old(self).entries@),
                old(self).salt@,
                category@,
                original@,
                Seq::empty(),
            ) matches Some(r) ==> {
                &&& res matches Some(t) && t@ == r.1
                &&& entries_core(final(self).entries@) == r.0
                &&& final(self).salt == old(self).salt
                &&& final(self).version == old(self).version
                &&& tokenize_timestamps(
                    old(self).entries@,
                    final(self).entries@,
                    vault_key(category@, original@, Seq::empty()),
                )
            },
    {
        let empty = String::new();
        self.try_tokenize_ctx(category, original, empty.as_str())
    }

    /// A copy of the vault.
    pub fn duplicate(&self) -> (res: Vault)
        ensures
            res.version == self.version,
            res.salt == self.salt,
            res.entries@ == self.entries@,
    {
        let mut entries: Vec<VaultEntry> = Vec::new();
        let mut i: usize = 0;
        while i < self.entries.len()
            invariant
                i <= self.entries@.len(),
                entries@ == self.entries@.take(i as int),
            decreases self.entries@.len() - i,
        {
            entries.push(copy_entry(&self.entries[i]));
            assert(entries@ =~= self.entries@.take(i + 1));
            i = i + 1;
        }
        assert(self.entries@.take(self.entries@.len() as int) == self.entries@);
        Vault { version: self.version, salt: self.salt.clone(), entries }
    }

    /// Tokenizes where it can: `None`, with the vault unchanged, where the
    /// use count of a known triple is at its maximum or no candidate token
    /// is free; otherwise the same as `tokenize_ctx`.
    pub fn try_tokenize_ctx(&mut self, category: &str, original: &str, context: &str) -> (res:
        Option<String>)
        ensures
            tokenize_core(
                entries_core(old(self).entries@),
                old(self).salt@,
                category@,
                original@,
                context@,
            ) is None ==> res is None && *final(self) == *old(self),
            tokenize_core(
                entries_core(old(self).entries@),
                old(self).salt@,
                category@,
                original@,
                context@,
            ) matches Some(r) ==> {
                &&& res matches Some(t) && t@ == r.1
                &&& entries_core(final(self).entries@) == r.0
                &&& final(self).salt == old(self).salt
                &&& final(self).version == old(self).version
                &&& tokenize_timestamps(
                    old(self).entries@,
                    final(self).entries@,
                    vault_key(category@, original@, context@),
                )
            },
    {
        proof {
            lemma_find_key(entries_core(self.entries@), vault_key(category@, original@, context@));
        }
        let found = self.find_key_exec(category, original, context);
        let fresh = match found {
            Some(i) => {
                proof {
                    lemma_entries_core_index(self.entries@, i as int);
                }
                if self.entries[i].use_count == u32::MAX {
                    return None;
                }
                None
            },
            None => {
                let fresh = self.free_token(category, original, context);
                if fresh.is_none() {
                    return None;
                }
                fresh
            },
        };
        Some(self.tokenize_with(category, original, context, found, fresh))
    }

    /// Replaces every token in `text` by its original, longest token first.
    pub fn detokenize(&self, text: &str) -> (res: String)
        ensures
            res@ == detokenize_text(entries_core(self.entries@), text@),
    {
        let ghost es = entries_core(self.entries@);
        let mut keys: Vec<(u64, u64)> = Vec::new();
        let mut i: usize = 0;
        while i < self.entries.len()
            invariant
                i <= self.entries@.len(),
                es == entries_core(self.entries@),
                keys@ == Seq::new(i as nat, |j: int| (encode_utf8(es[j].0).len() as u64, 0u64)),
            decreases self.entries@.len() - i,
        {
            proof {
                lemma_entries_core_index(self.entries@, i as int);
            }
            let len = self.entries[i].token.as_str().as_bytes().len();
            keys.push((len as u64, 0));
            assert(keys@ =~= Seq::new(
                (i + 1) as nat,
                |j: int| (encode_utf8(es[j].0).len() as u64, 0u64),
            ));
            i = i + 1;
        }
        let order = stable_order_desc(&keys);
        let ghost ord = order@.map_values(|i: usize| i as int);
        let mut chars = chars_of(text);
        let mut k: usize = 0;
        while k < order.len()
            invariant
                k <= order@.len(),
                order@.len() == self.entries@.len(),
                es == entries_core(self.entries@),
                ord == order@.map_values(|i: usize| i as int),
                forall|j: int| 0 <= j < order@.len() ==> order@[j] < self.entries@.len(),
                chars@ == replace_in_order(es, ord.take(k as int), text@),
            decreases order@.len() - k,
        {
            let idx = order[k];
            proof {
                lemma_entries_core_index(self.entries@, idx as int);
                assert(ord.take(k + 1).drop_last() == ord.take(k as int));
                assert(ord.take(k + 1).last() == idx as int);
            }
            let pat = chars_of(self.entries[idx].token.as_str());
            let rep = chars_of(self.entries[idx].original.as_str());
            chars = replace_chars(&chars, &pat, &rep);
            k = k + 1;
        }
        assert(ord.take(order@.len() as int) == ord);
        string_from_chars(&chars)
    }

    /// The first entry whose token is `token`.
    pub fn lookup_token(&self, token: &str) -> (res: Option<&VaultEntry>)
        ensures
            match first_with_token(entries_core(self.entries@), token@) {
                Some(i) => res == Some(&self.entries@[i]),
                None => res is None,
            },
    {
        let ghost es = entries_core(self.entries@);
        let t = owned(token);
        let mut i: usize = 0;
        assert(es.skip(0) == es);
        while i < self.entries.len()
            invariant
                i <= self.entries@.len(),
                t@ == token@,
                es == entries_core(self.entries@),
                first_with_token(es, token@) == match first_with_token(es.skip(i as int), token@) {
                    Some(j) => Some(j + i),
                    None => None,
                },
            decreases self.entries@.len() - i,
        {
            proof {
                lemma_entries_core_index(self.entries@, i as int);
                assert(es.skip(i as int)[0] == es[i as int]);
                assert(es.skip(i as int).drop_first() == es.skip(i + 1));
            }
            if self.entries[i].token == t {
                return Some(&self.entries[i]);
            }
            i = i + 1;
        }
        None
    }
}

} // verus!
