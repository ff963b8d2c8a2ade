//! Properties of the library that span several operations.
use vstd::prelude::*;

use crate::analyzer::{
    at_least, dominated_in, dominates, keep_undominated, permuted, ranked, resolved,
    sorted_by_start, sorted_by_start_then_score, without_dominated,
};
use crate::entity::RecognizerResult;
use crate::order::{
    insert_by_key, key_ge, lemma_stable_order_perm, lemma_stable_order_sorted, stable_order,
};
use crate::anonymizer::{anonymize_all, chosen_operator, entity_order, masked, ItemCore, Operator};
use crate::checksum::{
    ascii_upper_code, cn_id_valid, cn_weights, digits_number, iban_cleaned, iban_numeric,
    iban_valid, leading_digit_values, weighted_sum,
};
use crate::recognizer::wanted;
use crate::entity::EntityType;
use crate::restore::{
    bracketed, law_detokenize_restores_layout, layout_gaps, layout_head,
    layout_origs, layout_repls, lemma_bracketed_occurs_only_in_slots, lemma_pieces_no_open_bracket,
    lemma_replace_absent, lemma_run_keeps_bracketed, lemma_run_layout, no_brackets,
    no_open_bracket, partly_restored, restored_tokens, spans_apart,
    step_is_clean, trail, vault_sound,
};
use crate::text::{contains_seq, lemma_byte_range_chars, occurs_at, replace_all, unicode_uppercase};
use crate::vault::{
    candidate_token, core_key, detokenize_text, find_key, first_free_attempt, replace_in_order,
    restore_keys, restore_order, token_taken, tokenize_core, vault_key, EntryCore, VaultKey,
    hex_bytes, is_salt, token_input,
};

verus! {

// ---------------------------------------------------------------------------
// Tokenization
// ---------------------------------------------------------------------------

proof fn lemma_find_key_update(es: Seq<EntryCore>, i: int, x: EntryCore, k: VaultKey)
    requires
        0 <= i < es.len(),
        core_key(x) == core_key(es[i]),
    ensures
        find_key(es.update(i, x), k) == find_key(es, k),
    decreases es.len(),
{
    let u = es.update(i, x);
    if i == es.len() - 1 {
        assert(u.drop_last() == es.drop_last());
        assert(u.last() == x);
    } else {
        assert(u.drop_last() == es.drop_last().update(i, x));
        assert(u.last() == es.last());
        lemma_find_key_update(es.drop_last(), i, x, k);
    }
}

proof fn lemma_find_key_push(es: Seq<EntryCore>, x: EntryCore)
    ensures
        find_key(es.push(x), core_key(x)) == Some(es.len() as int),
{
    assert(es.push(x).last() == x);
}

pub proof fn lemma_find_key_bounds(es: Seq<EntryCore>, k: VaultKey)
    ensures
        find_key(es, k) matches Some(i) ==> 0 <= i < es.len() && core_key(es[i]) == k,
    decreases es.len(),
{
    if es.len() > 0 {
        lemma_find_key_bounds(es.drop_last(), k);
    }
}

/// Tokenizing the same (category, original, context) a second time gives
/// back the same token and adds no entry.
pub proof fn law_tokenize_is_deterministic(
    es: Seq<EntryCore>,
    salt: Seq<char>,
    category: Seq<char>,
    original: Seq<char>,
    context: Seq<char>,
)
    requires
        tokenize_core(es, salt, category, original, context) is Some,
        tokenize_core(
            tokenize_core(es, salt, category, original, context).unwrap().0,
            salt,
            category,
            original,
            context,
        ) is Some,
    ensures
        ({
            let first = tokenize_core(es, salt, category, original, context).unwrap();
            let second = tokenize_core(first.0, salt, category, original, context).unwrap();
            &&& second.1 == first.1
            &&& second.0.len() == first.0.len()
        }),
{
    let k = vault_key(category, original, context);
    lemma_find_key_bounds(es, k);
    let first = tokenize_core(es, salt, category, original, context).unwrap();
    match find_key(es, k) {
        Some(i) => {
            let e = es[i];
            lemma_find_key_update(es, i, (e.0, e.1, e.2, e.3, (e.4 + 1) as u32), k);
            assert(first.0[i].0 == e.0);
        },
        None => {
            let x = (first.1, original, category, context, 1u32);
            lemma_find_key_push(es, x);
            assert(first.0 == es.push(x));
            assert(first.0[es.len() as int] == x);
        },
    }
}

/// The entry whose token a tokenization returns carries the key of the
/// tokenized (category, original, context).
pub proof fn law_token_belongs_to_key(
    es: Seq<EntryCore>,
    salt: Seq<char>,
    category: Seq<char>,
    original: Seq<char>,
    context: Seq<char>,
)
    requires
        tokenize_core(es, salt, category, original, context) is Some,
    ensures
        ({
            let r = tokenize_core(es, salt, category, original, context).unwrap();
            exists|i: int|
                0 <= i < r.0.len() && (#[trigger] r.0[i]).0 == r.1 && core_key(r.0[i])
                    == vault_key(category, original, context)
        }),
{
    let k = vault_key(category, original, context);
    lemma_find_key_bounds(es, k);
    let r = tokenize_core(es, salt, category, original, context).unwrap();
    match find_key(es, k) {
        Some(i) => {
            assert(r.0[i].0 == r.1);
        },
        None => {
            assert(r.0[es.len() as int].0 == r.1);
        },
    }
}

proof fn lemma_find_key_none(es: Seq<EntryCore>, k: VaultKey)
    ensures
        find_key(es, k) is None ==> forall|j: int| 0 <= j < es.len() ==> core_key(#[trigger] es[j]) != k,
    decreases es.len(),
{
    if es.len() > 0 {
        lemma_find_key_none(es.drop_last(), k);
        if find_key(es, k) is None {
            assert forall|j: int| 0 <= j < es.len() implies core_key(#[trigger] es[j]) != k by {
                if j < es.len() - 1 {
                    assert(es[j] == es.drop_last()[j]);
                }
            }
        }
    }
}

/// No two entries have the same (category, original, context).
pub open spec fn keys_unique(es: Seq<EntryCore>) -> bool {
    forall|i: int, j: int|
        0 <= i < es.len() && 0 <= j < es.len() && i != j ==> core_key(#[trigger] es[i]) != core_key(
            #[trigger] es[j],
        )
}

/// Tokenization keeps every entry's token, original, category and context,
/// only adds entries at the end, and keeps keys unique.
pub proof fn law_tokenize_keeps_entries(
    es: Seq<EntryCore>,
    salt: Seq<char>,
    category: Seq<char>,
    original: Seq<char>,
    context: Seq<char>,
)
    requires
        tokenize_core(es, salt, category, original, context) is Some,
    ensures
        ({
            let r = tokenize_core(es, salt, category, original, context).unwrap();
            &&& r.0.len() >= es.len()
            &&& forall|m: int|
                0 <= m < es.len() ==> (#[trigger] r.0[m]).0 == es[m].0 && r.0[m].1 == es[m].1
                    && r.0[m].2 == es[m].2 && r.0[m].3 == es[m].3
            &&& keys_unique(es) ==> keys_unique(r.0)
        }),
{
    let key = vault_key(category, original, context);
    lemma_find_key_bounds(es, key);
    lemma_find_key_none(es, key);
    let r = tokenize_core(es, salt, category, original, context).unwrap();
    match find_key(es, key) {
        Some(i) => {
            assert forall|a: int, b: int|
                keys_unique(es) && 0 <= a < r.0.len() && 0 <= b < r.0.len() && a != b implies core_key(
                #[trigger] r.0[a],
            ) != core_key(#[trigger] r.0[b]) by {
                assert(core_key(r.0[a]) == core_key(es[a]));
                assert(core_key(r.0[b]) == core_key(es[b]));
            }
        },
        None => {
            assert forall|a: int, b: int|
                keys_unique(es) && 0 <= a < r.0.len() && 0 <= b < r.0.len() && a != b implies core_key(
                #[trigger] r.0[a],
            ) != core_key(#[trigger] r.0[b]) by {
                if a < es.len() && b < es.len() {
                    assert(r.0[a] == es[a] && r.0[b] == es[b]);
                } else if a < es.len() {
                    assert(r.0[a] == es[a]);
                    assert(core_key(r.0[b]) == key);
                } else {
                    assert(r.0[b] == es[b]);
                    assert(core_key(r.0[a]) == key);
                }
            }
        },
    }
}

/// With unique keys, tokenizing a triple that has an entry returns that
/// entry's token and only raises its use count.
pub proof fn law_tokenize_returns_stored_token(
    es: Seq<EntryCore>,
    salt: Seq<char>,
    category: Seq<char>,
    original: Seq<char>,
    context: Seq<char>,
    i: int,
)
    requires
        keys_unique(es),
        0 <= i < es.len(),
        core_key(es[i]) == vault_key(category, original, context),
        tokenize_core(es, salt, category, original, context) is Some,
    ensures
        ({
            let r = tokenize_core(es, salt, category, original, context).unwrap();
            let e = es[i];
            &&& r.1 == e.0
            &&& r.0 == es.update(i, (e.0, e.1, e.2, e.3, (e.4 + 1) as u32))
        }),
{
    let key = vault_key(category, original, context);
    lemma_find_key_bounds(es, key);
    lemma_find_key_none(es, key);
    assert(find_key(es, key) == Some(i));
}

/// With unique keys, tokenizing a triple again after tokenizing another one
/// in between gives back the first token.
pub proof fn law_tokenize_again_after_another(
    es: Seq<EntryCore>,
    salt: Seq<char>,
    a: (Seq<char>, Seq<char>, Seq<char>),
    b: (Seq<char>, Seq<char>, Seq<char>),
)
    requires
        keys_unique(es),
        tokenize_core(es, salt, a.0, a.1, a.2) is Some,
        tokenize_core(tokenize_core(es, salt, a.0, a.1, a.2).unwrap().0, salt, b.0, b.1, b.2) is Some,
        tokenize_core(
            tokenize_core(
                tokenize_core(es, salt, a.0, a.1, a.2).unwrap().0,
                salt,
                b.0,
                b.1,
                b.2,
            ).unwrap().0,
            salt,
            a.0,
            a.1,
            a.2,
        ) is Some,
    ensures
        ({
            let r1 = tokenize_core(es, salt, a.0, a.1, a.2).unwrap();
            let r2 = tokenize_core(r1.0, salt, b.0, b.1, b.2).unwrap();
            let r3 = tokenize_core(r2.0, salt, a.0, a.1, a.2).unwrap();
            r3.1 == r1.1
        }),
{
    let r1 = tokenize_core(es, salt, a.0, a.1, a.2).unwrap();
    let r2 = tokenize_core(r1.0, salt, b.0, b.1, b.2).unwrap();
    law_tokenize_keeps_entries(es, salt, a.0, a.1, a.2);
    law_token_belongs_to_key(es, salt, a.0, a.1, a.2);
    let i = choose|i: int|
        0 <= i < r1.0.len() && (#[trigger] r1.0[i]).0 == r1.1 && core_key(r1.0[i]) == vault_key(
            a.0,
            a.1,
            a.2,
        );
    law_tokenize_keeps_entries(r1.0, salt, b.0, b.1, b.2);
    assert(r2.0[i].0 == r1.0[i].0);
    assert(core_key(r2.0[i]) == core_key(r1.0[i]));
    law_tokenize_returns_stored_token(r2.0, salt, a.0, a.1, a.2, i);
}

/// No token stands for two different (original, context) pairs.
pub open spec fn tokens_unambiguous(es: Seq<EntryCore>) -> bool {
    forall|i: int, j: int|
        0 <= i < es.len() && 0 <= j < es.len() && (#[trigger] es[i]).0 == (#[trigger] es[j]).0
            ==> es[i].1 == es[j].1 && es[i].3 == es[j].3
}

proof fn lemma_first_free_not_taken(
    es: Seq<EntryCore>,
    salt: Seq<char>,
    category: Seq<char>,
    original: Seq<char>,
    context: Seq<char>,
    from: nat,
)
    ensures
        first_free_attempt(es, salt, category, original, context, from) matches Some(a) ==> !token_taken(
            es,
            candidate_token(salt, category, original, context, a),
            original,
            context,
        ),
    decreases u32::MAX + 1 - from,
{
    if from <= u32::MAX {
        lemma_first_free_not_taken(es, salt, category, original, context, from + 1);
    }
}

proof fn lemma_update_count_unambiguous(es: Seq<EntryCore>, i: int, x: EntryCore)
    requires
        tokens_unambiguous(es),
        0 <= i < es.len(),
        x.0 == es[i].0,
        x.1 == es[i].1,
        x.3 == es[i].3,
    ensures
        tokens_unambiguous(es.update(i, x)),
{
    let n = es.update(i, x);
    assert forall|a: int, b: int|
        0 <= a < n.len() && 0 <= b < n.len() && (#[trigger] n[a]).0 == (#[trigger] n[b]).0 implies n[a].1
        == n[b].1 && n[a].3 == n[b].3 by {
        assert(es[a].0 == es[b].0);
    }
}

/// Tokenization keeps tokens unambiguous: a token that already stands for
/// another original or context is never handed out again.
pub proof fn law_tokenize_keeps_tokens_unambiguous(
    es: Seq<EntryCore>,
    salt: Seq<char>,
    category: Seq<char>,
    original: Seq<char>,
    context: Seq<char>,
)
    requires
        tokens_unambiguous(es),
        tokenize_core(es, salt, category, original, context) is Some,
    ensures
        tokens_unambiguous(tokenize_core(es, salt, category, original, context).unwrap().0),
{
    let k = vault_key(category, original, context);
    lemma_find_key_bounds(es, k);
    let r = tokenize_core(es, salt, category, original, context).unwrap();
    let n = r.0;
    match find_key(es, k) {
        Some(i) => {
            let e = es[i];
            assert(n == es.update(i, (e.0, e.1, e.2, e.3, (e.4 + 1) as u32)));
            lemma_update_count_unambiguous(es, i, (e.0, e.1, e.2, e.3, (e.4 + 1) as u32));
        },
        None => {
            let t = r.1;
            let at = first_free_attempt(es, salt, category, original, context, 0).unwrap();
            lemma_first_free_not_taken(es, salt, category, original, context, 0);
            assert(t == candidate_token(salt, category, original, context, at));
            assert(!token_taken(es, t, original, context));
            assert forall|a: int, b: int|
                0 <= a < n.len() && 0 <= b < n.len() && (#[trigger] n[a]).0 == (#[trigger] n[b]).0
                implies n[a].1 == n[b].1 && n[a].3 == n[b].3 by {
                if a < es.len() && b < es.len() {
                    assert(n[a] == es[a] && n[b] == es[b]);
                } else if a < es.len() {
                    assert(n[a] == es[a]);
                    assert(n[b] == (t, original, category, context, 1u32));
                    assert(es[a].0 == t);
                } else if b < es.len() {
                    assert(n[b] == es[b]);
                    assert(n[a] == (t, original, category, context, 1u32));
                    assert(es[b].0 == t);
                }
            }
        },
    }
}

/// The token that tokenization returns stands, in the vault after it, for
/// the tokenized original and context and for nothing else, when tokens
/// were unambiguous before.
pub proof fn law_token_stands_for_value(
    es: Seq<EntryCore>,
    salt: Seq<char>,
    category: Seq<char>,
    original: Seq<char>,
    context: Seq<char>,
)
    requires
        tokens_unambiguous(es),
        tokenize_core(es, salt, category, original, context) is Some,
    ensures
        ({
            let r = tokenize_core(es, salt, category, original, context).unwrap();
            forall|k: int|
                0 <= k < r.0.len() && (#[trigger] r.0[k]).0 == r.1 ==> r.0[k].1 == original
                    && r.0[k].3 == context
        }),
{
    let key = vault_key(category, original, context);
    lemma_find_key_bounds(es, key);
    law_tokenize_keeps_tokens_unambiguous(es, salt, category, original, context);
    law_token_belongs_to_key(es, salt, category, original, context);
    let r = tokenize_core(es, salt, category, original, context).unwrap();
    match find_key(es, key) {
        Some(i) => {
            assert(r.0[i].0 == r.1 && r.0[i].1 == original && r.0[i].3 == context);
        },
        None => {
            assert(r.0[es.len() as int].0 == r.1);
            assert(r.0[es.len() as int].1 == original && r.0[es.len() as int].3 == context);
        },
    }
}

// ---------------------------------------------------------------------------
// Restoring text
// ---------------------------------------------------------------------------

proof fn lemma_replace_single(a: Seq<char>, t: Seq<char>, b: Seq<char>, rep: Seq<char>)
    requires
        t.len() > 0,
        forall|i: int| occurs_at(a + t + b, t, i) ==> i == a.len(),
    ensures
        replace_all(a + t + b, t, rep) == a + rep + b,
    decreases a.len(),
{
    let s = a + t + b;
    if a.len() == 0 {
        assert(s.take(t.len() as int) == t);
        assert(s.skip(t.len() as int) == b);
        assert forall|i: int| !occurs_at(b, t, i) by {
            if occurs_at(b, t, i) {
                assert(s.subrange(t.len() + i, t.len() + i + t.len()) == b.subrange(i, i + t.len()));
                assert(occurs_at(s, t, t.len() + i));
            }
        }
        lemma_replace_absent(b, t, rep);
        assert(a + rep + b == rep + b);
    } else {
        assert(!(s.len() >= t.len() && s.take(t.len() as int) == t)) by {
            if s.len() >= t.len() && s.take(t.len() as int) == t {
                assert(occurs_at(s, t, 0));
            }
        }
        let a2 = a.drop_first();
        assert(s.drop_first() == a2 + t + b);
        assert forall|i: int| occurs_at(a2 + t + b, t, i) implies i == a2.len() by {
            assert(s.subrange(i + 1, i + 1 + t.len()) == (a2 + t + b).subrange(i, i + t.len()));
            assert(occurs_at(s, t, i + 1));
        }
        lemma_replace_single(a2, t, b, rep);
        assert(seq![s[0]] + (a2 + rep + b) == a + rep + b);
    }
}

proof fn lemma_restore_steps(
    es: Seq<EntryCore>,
    order: Seq<int>,
    k: int,
    a: Seq<char>,
    b: Seq<char>,
)
    requires
        0 <= k < es.len(),
        forall|m: int| 0 <= m < order.len() ==> 0 <= #[trigger] order[m] < es.len(),
        forall|j: int| 0 <= j < es.len() ==> (#[trigger] es[j]).0.len() > 0,
        forall|j: int|
            0 <= j < es.len() && (#[trigger] es[j]).0 == es[k].0 ==> es[j].1 == es[k].1,
        forall|j: int|
            0 <= j < es.len() && (#[trigger] es[j]).0 != es[k].0 ==> !contains_seq(
                a + es[k].0 + b,
                es[j].0,
            ) && !contains_seq(a + es[k].1 + b, es[j].0),
        forall|i: int| occurs_at(a + es[k].0 + b, es[k].0, i) ==> i == a.len(),
        !contains_seq(a + es[k].1 + b, es[k].0),
    ensures
        replace_in_order(es, order, a + es[k].0 + b) == a + es[k].0 + b || replace_in_order(
            es,
            order,
            a + es[k].0 + b,
        ) == a + es[k].1 + b,
        (exists|m: int| 0 <= m < order.len() && es[order[m]].0 == es[k].0) ==> replace_in_order(
            es,
            order,
            a + es[k].0 + b,
        ) == a + es[k].1 + b,
    decreases order.len(),
{
    let t = es[k].0;
    let o = es[k].1;
    if order.len() > 0 {
        let prev = order.drop_last();
        assert forall|m: int| 0 <= m < prev.len() implies 0 <= #[trigger] prev[m] < es.len() by {
            assert(prev[m] == order[m]);
        }
        lemma_restore_steps(es, prev, k, a, b);
        let cur = replace_in_order(es, prev, a + t + b);
        let j = order.last();
        assert(0 <= j < es.len());
        if es[j].0 == t {
            if cur == a + t + b {
                lemma_replace_single(a, t, b, es[j].1);
            } else {
                lemma_replace_absent(cur, t, es[j].1);
            }
        } else {
            lemma_replace_absent(cur, es[j].0, es[j].1);
        }
        if exists|m: int| 0 <= m < order.len() && es[order[m]].0 == t {
            let m = choose|m: int| 0 <= m < order.len() && es[order[m]].0 == t;
            if m < order.len() - 1 {
                assert(prev[m] == order[m]);
            }
        }
    }
}

/// Detokenizing restores a token's original: where `a + t + b` holds the
/// token `t` of entry `k` once, no other token occurs in it or in
/// `a + original + b`, `t` does not occur in `a + original + b`, tokens are
/// not empty, and every entry with token `t` has the same original, the
/// text restored is `a + original + b`.
pub proof fn law_detokenize_restores(es: Seq<EntryCore>, k: int, a: Seq<char>, b: Seq<char>)
    requires
        0 <= k < es.len(),
        forall|j: int| 0 <= j < es.len() ==> (#[trigger] es[j]).0.len() > 0,
        forall|j: int|
            0 <= j < es.len() && (#[trigger] es[j]).0 == es[k].0 ==> es[j].1 == es[k].1,
        forall|j: int|
            0 <= j < es.len() && (#[trigger] es[j]).0 != es[k].0 ==> !contains_seq(
                a + es[k].0 + b,
                es[j].0,
            ) && !contains_seq(a + es[k].1 + b, es[j].0),
        forall|i: int| occurs_at(a + es[k].0 + b, es[k].0, i) ==> i == a.len(),
        !contains_seq(a + es[k].1 + b, es[k].0),
    ensures
        detokenize_text(es, a + es[k].0 + b) == a + es[k].1 + b,
{
    let keys = restore_keys(es);
    let order = restore_order(es);
    crate::order::lemma_stable_order_perm(keys, es.len() as int);
    assert(order.contains(k));
    let m = choose|m: int| 0 <= m < order.len() && order[m] == k;
    assert(es[order[m]].0 == es[k].0);
    lemma_restore_steps(es, order, k, a, b);
}

/// Restoring the anonymized text meets, at each of its steps, its token
/// only as whole slots that still hold it, in the layout the anonymizer
/// made: the text before the first span, then each span's replacement
/// followed by the text up to the next span.
pub open spec fn restoring_is_clean(
    text: Seq<char>,
    ents: Seq<RecognizerResult>,
    items: Seq<ItemCore>,
    es: Seq<EntryCore>,
) -> bool {
    let n = ents.len() as int;
    forall|m: int|
        0 <= m < es.len() ==> #[trigger] step_is_clean(
            es,
            layout_head(text, ents, n),
            layout_repls(items),
            layout_origs(text, ents, n),
            layout_gaps(text, ents, n),
            m,
        )
}

/// Anonymizing with the vault and then detokenizing gives back the text.
/// It holds when every span is replaced by a vault token, the spans do not
/// overlap in the order the anonymizer replaces them, the vault's tokens
/// are not empty and each stands for one original, and restoring meets
/// each token only where the anonymizer put it.
pub proof fn law_vault_anonymization_is_reversible(
    text: Seq<char>,
    ents: Seq<RecognizerResult>,
    ops: Map<Seq<char>, Operator>,
    default: Operator,
    es0: Seq<EntryCore>,
    salt: Seq<char>,
)
    requires
        forall|i: int|
            0 <= i < ents.len() ==> chosen_operator(ops, (#[trigger] ents[i]).entity_type.0@, default) is Vault,
        spans_apart(ents),
        vault_sound(es0),
        anonymize_all(text, ents, ops, default, Some(es0), salt) matches Some(r) && r.2 matches Some(
            es1,
        ) && restoring_is_clean(text, ents, r.1, es1),
    ensures
        anonymize_all(text, ents, ops, default, Some(es0), salt) matches Some(r) && r.2 matches Some(
            es1,
        ) && detokenize_text(es1, r.0) == text,
{
    let n = ents.len() as int;
    let ib = lemma_run_layout(text, ents, ops, default, es0, salt, n);
    let r = anonymize_all(text, ents, ops, default, Some(es0), salt).unwrap();
    let es1 = r.2.unwrap();
    let head = layout_head(text, ents, n);
    let toks = layout_repls(r.1);
    let origs = layout_origs(text, ents, n);
    let gaps = layout_gaps(text, ents, n);
    assert(text.take(0) =~= Seq::<char>::empty());
    assert(vstd::utf8::encode_utf8(text.take(0)) =~= Seq::<u8>::empty());
    lemma_byte_range_chars(text, 0, ib);
    assert(text.subrange(0, ib) =~= text.take(ib));
    assert(head == text.take(ib));
    assert forall|i: int| 0 <= i < toks.len() implies exists|k: int|
        0 <= k < es1.len() && es1[k].0 == #[trigger] toks[i] by {
        let m = n - 1 - i;
        assert(toks[i] == r.1[m].4);
        let x = choose|x: int| 0 <= x < es1.len() && (#[trigger] es1[x]).0 == r.1[m].4 && es1[x].1 == r.1[m].3;
    }
    assert forall|i: int, k: int|
        0 <= i < toks.len() && 0 <= k < es1.len() && (#[trigger] es1[k]).0 == #[trigger] toks[i]
            implies es1[k].1 == origs[i] by {
        let m = n - 1 - i;
        assert(toks[i] == r.1[m].4);
        assert(r.1[m].3 == origs[i]);
        let x = choose|x: int| 0 <= x < es1.len() && (#[trigger] es1[x]).0 == r.1[m].4 && es1[x].1 == r.1[m].3;
        assert(es1[x].0 == es1[k].0);
    }
    law_detokenize_restores_layout(es1, head, toks, origs, gaps);
}

/// Detokenizing `a + token + b` gives `a + original + b` when every stored
/// token is bracketed, every entry with that token stores that original,
/// and `a`, `b` and the original hold no `[`.
pub proof fn law_detokenize_restores_bracketed(es: Seq<EntryCore>, k: int, a: Seq<char>, b: Seq<char>)
    requires
        0 <= k < es.len(),
        forall|j: int| 0 <= j < es.len() ==> bracketed((#[trigger] es[j]).0),
        forall|j: int|
            0 <= j < es.len() && (#[trigger] es[j]).0 == es[k].0 ==> es[j].1 == es[k].1,
        no_open_bracket(a),
        no_open_bracket(b),
        no_open_bracket(es[k].1),
    ensures
        detokenize_text(es, a + es[k].0 + b) == a + es[k].1 + b,
{
    let t = es[k].0;
    let o = es[k].1;
    let toks = seq![t];
    let origs = seq![o];
    let gaps = seq![b];
    assert(trail(toks, gaps) =~= t + b) by {
        assert(trail(toks.drop_first(), gaps.drop_first()) =~= Seq::<char>::empty());
    }
    assert(trail(origs, gaps) =~= o + b) by {
        assert(trail(origs.drop_first(), gaps.drop_first()) =~= Seq::<char>::empty());
    }
    assert(a + trail(toks, gaps) =~= a + t + b);
    assert(a + trail(origs, gaps) =~= a + o + b);
    assert forall|i: int| 0 <= i < toks.len() implies exists|j: int|
        0 <= j < es.len() && es[j].0 == #[trigger] toks[i] by {
        assert(es[k].0 == toks[i]);
    }
    lemma_stable_order_perm(restore_keys(es), es.len() as int);
    assert forall|m: int| 0 <= m < es.len() implies #[trigger] step_is_clean(es, a, toks, origs, gaps, m) by {
        let tm = es[restore_order(es)[m]].0;
        let done = restored_tokens(es, m);
        let fills = partly_restored(toks, origs, done);
        assert forall|i: int| 0 <= i < fills.len() implies no_open_bracket(#[trigger] fills[i])
            || bracketed(fills[i]) by {
            if done.contains(toks[i]) {
                assert(fills[i] == o);
            } else {
                assert(fills[i] == t);
            }
        }
        assert forall|i: int| 0 <= i < gaps.len() implies no_open_bracket(#[trigger] gaps[i]) by {
            assert(gaps[i] == b);
        }
        lemma_bracketed_occurs_only_in_slots(a, fills, gaps, tm);
        assert forall|i: int| 0 <= i < fills.len() && fills[i] == tm implies toks[i] == tm by {
            if done.contains(toks[i]) {
                assert(fills[i] == o);
                assert(o[0] != '[');
            }
        }
    }
    law_detokenize_restores_layout(es, a, toks, origs, gaps);
}

/// Spans with distinct starts that do not overlap (each starting at or
/// before its end) are apart in the order the anonymizer replaces them.
pub proof fn lemma_disjoint_spans_apart(ents: Seq<RecognizerResult>)
    requires
        forall|i: int| 0 <= i < ents.len() ==> (#[trigger] ents[i]).start <= ents[i].end,
        forall|i: int, j: int|
            0 <= i < ents.len() && 0 <= j < ents.len() && i != j ==> (#[trigger] ents[i]).start
                != (#[trigger] ents[j]).start && (ents[i].end <= ents[j].start || ents[j].end
                <= ents[i].start),
    ensures
        spans_apart(ents),
{
    let n = ents.len() as int;
    let keys = Seq::new(ents.len(), |i: int| (ents[i].start as u64, 0u64));
    lemma_stable_order_perm(keys, n);
    lemma_stable_order_sorted(keys, n);
    let o = entity_order(ents);
    assert forall|k: int| 1 <= k < n implies ents[#[trigger] o[k]].end <= ents[o[k - 1]].start by {
        let a = o[k - 1];
        let b = o[k];
        assert(key_ge(keys[a], keys[b]));
        assert(a != b);
        assert(ents[a].start != ents[b].start);
    }
}

/// Anonymizing with the vault and then detokenizing gives back the text,
/// for inputs that can be told in advance: every span is replaced by a vault
/// token; the spans have distinct starts and do not overlap; the text holds
/// no `[`; the uppercase forms of the entity types hold no brackets; the
/// vault's tokens are bracketed and each stands for one original (both
/// true of an empty vault).
pub proof fn law_bracket_free_anonymization_is_reversible(
    text: Seq<char>,
    ents: Seq<RecognizerResult>,
    ops: Map<Seq<char>, Operator>,
    default: Operator,
    es0: Seq<EntryCore>,
    salt: Seq<char>,
)
    requires
        forall|i: int|
            0 <= i < ents.len() ==> chosen_operator(ops, (#[trigger] ents[i]).entity_type.0@, default) is Vault,
        forall|i: int| 0 <= i < ents.len() ==> (#[trigger] ents[i]).start <= ents[i].end,
        forall|i: int, j: int|
            0 <= i < ents.len() && 0 <= j < ents.len() && i != j ==> (#[trigger] ents[i]).start
                != (#[trigger] ents[j]).start && (ents[i].end <= ents[j].start || ents[j].end
                <= ents[i].start),
        no_open_bracket(text),
        forall|i: int|
            0 <= i < ents.len() ==> no_brackets(unicode_uppercase((#[trigger] ents[i]).entity_type.0@)),
        forall|k: int| 0 <= k < es0.len() ==> bracketed((#[trigger] es0[k]).0),
        tokens_unambiguous(es0),
        anonymize_all(text, ents, ops, default, Some(es0), salt) is Some,
    ensures
        anonymize_all(text, ents, ops, default, Some(es0), salt) matches Some(r) && r.2 matches Some(
            es1,
        ) && detokenize_text(es1, r.0) == text,
{
    let n = ents.len() as int;
    lemma_disjoint_spans_apart(ents);
    assert(vault_sound(es0));
    lemma_run_keeps_bracketed(text, ents, ops, default, es0, salt, n);
    let ib = lemma_run_layout(text, ents, ops, default, es0, salt, n);
    let r = anonymize_all(text, ents, ops, default, Some(es0), salt).unwrap();
    let es1 = r.2.unwrap();
    let head = layout_head(text, ents, n);
    let toks = layout_repls(r.1);
    let origs = layout_origs(text, ents, n);
    let gaps = layout_gaps(text, ents, n);
    assert(text.take(0) =~= Seq::<char>::empty());
    assert(vstd::utf8::encode_utf8(text.take(0)) =~= Seq::<u8>::empty());
    lemma_byte_range_chars(text, 0, ib);
    assert(text.subrange(0, ib) =~= text.take(ib));
    assert(head == text.take(ib));
    lemma_pieces_no_open_bracket(head, origs, gaps);
    assert forall|i: int| 0 <= i < toks.len() implies bracketed(#[trigger] toks[i]) by {
        let m = n - 1 - i;
        assert(toks[i] == r.1[m].4);
        let x = choose|x: int|
            0 <= x < es1.len() && (#[trigger] es1[x]).0 == r.1[m].4 && es1[x].1 == r.1[m].3;
    }
    lemma_stable_order_perm(restore_keys(es1), es1.len() as int);
    assert forall|m: int| 0 <= m < es1.len() implies #[trigger] step_is_clean(
        es1,
        head,
        toks,
        origs,
        gaps,
        m,
    ) by {
        let t = es1[restore_order(es1)[m]].0;
        let done = restored_tokens(es1, m);
        let fills = partly_restored(toks, origs, done);
        assert forall|i: int| 0 <= i < fills.len() implies no_open_bracket(#[trigger] fills[i])
            || bracketed(fills[i]) by {
            if done.contains(toks[i]) {
                assert(fills[i] == origs[i]);
            } else {
                assert(fills[i] == toks[i]);
            }
        }
        lemma_bracketed_occurs_only_in_slots(head, fills, gaps, t);
        assert forall|i: int| 0 <= i < fills.len() && fills[i] == t implies toks[i] == t by {
            if done.contains(toks[i]) {
                assert(fills[i] == origs[i]);
                assert(origs[i][0] != '[');
            }
        }
    }
    law_vault_anonymization_is_reversible(text, ents, ops, default, es0, salt);
}

/// Anonymizing through a fresh vault and then detokenizing gives back the
/// text, when every span is replaced by a vault token, the spans have
/// distinct starts and do not overlap, the text holds no `[`, and the
/// uppercase forms of the entity types hold no brackets.
pub proof fn law_fresh_vault_anonymization_is_reversible(
    text: Seq<char>,
    ents: Seq<RecognizerResult>,
    ops: Map<Seq<char>, Operator>,
    default: Operator,
    salt: Seq<char>,
)
    requires
        forall|i: int|
            0 <= i < ents.len() ==> chosen_operator(ops, (#[trigger] ents[i]).entity_type.0@, default) is Vault,
        forall|i: int| 0 <= i < ents.len() ==> (#[trigger] ents[i]).start <= ents[i].end,
        forall|i: int, j: int|
            0 <= i < ents.len() && 0 <= j < ents.len() && i != j ==> (#[trigger] ents[i]).start
                != (#[trigger] ents[j]).start && (ents[i].end <= ents[j].start || ents[j].end
                <= ents[i].start),
        no_open_bracket(text),
        forall|i: int|
            0 <= i < ents.len() ==> no_brackets(unicode_uppercase((#[trigger] ents[i]).entity_type.0@)),
        anonymize_all(text, ents, ops, default, Some(Seq::empty()), salt) is Some,
    ensures
        anonymize_all(text, ents, ops, default, Some(Seq::empty()), salt) matches Some(r)
            && r.2 matches Some(es1) && detokenize_text(es1, r.0) == text,
{
    law_bracket_free_anonymization_is_reversible(text, ents, ops, default, Seq::empty(), salt);
}

// ---------------------------------------------------------------------------
// Analysis
// ---------------------------------------------------------------------------

/// No result of `s` dominates another result of `s`.
pub open spec fn none_dominated(s: Seq<RecognizerResult>) -> bool {
    forall|i: int, j: int|
        0 <= i < s.len() && 0 <= j < s.len() && i != j ==> !dominates(
            #[trigger] s[i],
            #[trigger] s[j],
        )
}

proof fn lemma_at_least(rs: Seq<RecognizerResult>, th: u64)
    ensures
        forall|i: int|
            0 <= i < at_least(rs, th).len() ==> (#[trigger] at_least(rs, th)[i]).score >= th
                && rs.contains(at_least(rs, th)[i]),
    decreases rs.len(),
{
    if rs.len() > 0 {
        let prev = rs.drop_last();
        lemma_at_least(prev, th);
        let out = at_least(rs, th);
        assert forall|i: int| 0 <= i < out.len() implies (#[trigger] out[i]).score >= th
            && rs.contains(out[i]) by {
            if rs.last().score >= th && i == out.len() - 1 {
                assert(out[i] == rs.last());
                assert(rs[rs.len() - 1] == out[i]);
            } else {
                assert(out[i] == at_least(prev, th)[i]);
                let q = choose|q: int| 0 <= q < prev.len() && prev[q] == out[i];
                assert(rs[q] == out[i]);
            }
        }
    }
}

proof fn lemma_without_dominated(out: Seq<RecognizerResult>, r: RecognizerResult)
    ensures
        forall|i: int|
            0 <= i < without_dominated(out, r).len() ==> out.contains(
                #[trigger] without_dominated(out, r)[i],
            ) && !dominates(r, without_dominated(out, r)[i]),
        none_dominated(out) ==> none_dominated(without_dominated(out, r)),
    decreases out.len(),
{
    if out.len() > 0 {
        let prev = out.drop_last();
        lemma_without_dominated(prev, r);
        let w = without_dominated(out, r);
        let wp = without_dominated(prev, r);
        assert forall|i: int| 0 <= i < w.len() implies out.contains(#[trigger] w[i]) && !dominates(
            r,
            w[i],
        ) by {
            if !dominates(r, out.last()) && i == w.len() - 1 {
                assert(w[i] == out.last());
                assert(out[out.len() - 1] == w[i]);
            } else {
                assert(w[i] == wp[i]);
                let q = choose|q: int| 0 <= q < prev.len() && prev[q] == w[i];
                assert(out[q] == w[i]);
            }
        }
        if none_dominated(out) {
            assert forall|a: int, b: int| 0 <= a < prev.len() && 0 <= b < prev.len() && a != b implies !dominates(
                #[trigger] prev[a],
                #[trigger] prev[b],
            ) by {
                assert(prev[a] == out[a] && prev[b] == out[b]);
            }
            assert forall|i: int, j: int| 0 <= i < w.len() && 0 <= j < w.len() && i != j implies !dominates(
                #[trigger] w[i],
                #[trigger] w[j],
            ) by {
                if !dominates(r, out.last()) {
                    let n = w.len() - 1;
                    if i == n {
                        assert(w[j] == wp[j]);
                        let q = choose|q: int| 0 <= q < prev.len() && prev[q] == wp[j];
                        assert(out[q] == w[j] && out[out.len() - 1] == w[i]);
                    } else if j == n {
                        assert(w[i] == wp[i]);
                        let q = choose|q: int| 0 <= q < prev.len() && prev[q] == wp[i];
                        assert(out[q] == w[i] && out[out.len() - 1] == w[j]);
                    } else {
                        assert(w[i] == wp[i] && w[j] == wp[j]);
                    }
                }
            }
        }
    }
}

proof fn lemma_keep_undominated(rs: Seq<RecognizerResult>)
    ensures
        none_dominated(keep_undominated(rs)),
        forall|i: int|
            0 <= i < keep_undominated(rs).len() ==> rs.contains(#[trigger] keep_undominated(rs)[i]),
    decreases rs.len(),
{
    if rs.len() > 0 {
        let prev = rs.drop_last();
        let r = rs.last();
        lemma_keep_undominated(prev);
        let out = keep_undominated(prev);
        let k = keep_undominated(rs);
        if dominated_in(out, r) {
            assert forall|i: int| 0 <= i < k.len() implies rs.contains(#[trigger] k[i]) by {
                let q = choose|q: int| 0 <= q < prev.len() && prev[q] == k[i];
                assert(rs[q] == k[i]);
            }
        } else {
            lemma_without_dominated(out, r);
            let w = without_dominated(out, r);
            assert(k == w.push(r));
            assert forall|i: int| 0 <= i < k.len() implies rs.contains(#[trigger] k[i]) by {
                if i == k.len() - 1 {
                    assert(rs[rs.len() - 1] == k[i]);
                } else {
                    assert(k[i] == w[i]);
                    let p = choose|p: int| 0 <= p < out.len() && out[p] == w[i];
                    let q = choose|q: int| 0 <= q < prev.len() && prev[q] == out[p];
                    assert(rs[q] == k[i]);
                }
            }
            assert forall|i: int, j: int| 0 <= i < k.len() && 0 <= j < k.len() && i != j implies !dominates(
                #[trigger] k[i],
                #[trigger] k[j],
            ) by {
                let n = k.len() - 1;
                if i == n {
                    assert(k[j] == w[j]);
                } else if j == n {
                    assert(k[i] == w[i]);
                    let p = choose|p: int| 0 <= p < out.len() && out[p] == w[i];
                    assert(!dominates(out[p], r));
                } else {
                    assert(k[i] == w[i] && k[j] == w[j]);
                }
            }
        }
    }
}

proof fn lemma_permuted(xs: Seq<RecognizerResult>, order: Seq<int>)
    requires
        order.len() == xs.len(),
        forall|m: int| 0 <= m < order.len() ==> 0 <= #[trigger] order[m] < xs.len(),
        forall|a: int, b: int| 0 <= a < b < order.len() ==> order[a] != order[b],
    ensures
        forall|i: int| 0 <= i < xs.len() ==> xs.contains(#[trigger] permuted(xs, order)[i]),
        none_dominated(xs) ==> none_dominated(permuted(xs, order)),
{
    let p = permuted(xs, order);
    assert forall|i: int| 0 <= i < xs.len() implies xs.contains(#[trigger] p[i]) by {
        assert(xs[order[i]] == p[i]);
    }
    if none_dominated(xs) {
        assert forall|i: int, j: int| 0 <= i < p.len() && 0 <= j < p.len() && i != j implies !dominates(
            #[trigger] p[i],
            #[trigger] p[j],
        ) by {
            assert(p[i] == xs[order[i]] && p[j] == xs[order[j]]);
            if i < j {
                assert(order[i] != order[j]);
            } else {
                assert(order[j] != order[i]);
            }
        }
    }
}

proof fn lemma_sorted_by_start(xs: Seq<RecognizerResult>)
    ensures
        sorted_by_start(xs).len() == xs.len(),
        forall|i: int| 0 <= i < xs.len() ==> xs.contains(#[trigger] sorted_by_start(xs)[i]),
        none_dominated(xs) ==> none_dominated(sorted_by_start(xs)),
        forall|a: int, b: int|
            0 <= a < b < xs.len() ==> (#[trigger] sorted_by_start(xs)[a]).start <= (
            #[trigger] sorted_by_start(xs)[b]).start,
{
    let keys = Seq::new(xs.len(), |i: int| ((u64::MAX - xs[i].start) as u64, 0u64));
    lemma_stable_order_perm(keys, xs.len() as int);
    lemma_stable_order_sorted(keys, xs.len() as int);
    let order = stable_order(keys, xs.len() as int);
    lemma_permuted(xs, order);
    let s = sorted_by_start(xs);
    assert forall|a: int, b: int| 0 <= a < b < xs.len() implies (#[trigger] s[a]).start <= (
    #[trigger] s[b]).start by {
        assert(key_ge(keys[order[a]], keys[order[b]]));
        assert(s[a] == xs[order[a]] && s[b] == xs[order[b]]);
    }
}

proof fn lemma_sorted_by_start_then_score(xs: Seq<RecognizerResult>)
    ensures
        sorted_by_start_then_score(xs).len() == xs.len(),
        forall|i: int|
            0 <= i < xs.len() ==> xs.contains(#[trigger] sorted_by_start_then_score(xs)[i]),
{
    let keys = Seq::new(xs.len(), |i: int| ((u64::MAX - xs[i].start) as u64, xs[i].score));
    lemma_stable_order_perm(keys, xs.len() as int);
    let order = stable_order(keys, xs.len() as int);
    lemma_permuted(xs, order);
}

proof fn lemma_without_dominated_keeps(out: Seq<RecognizerResult>, r: RecognizerResult, j: int)
    requires
        0 <= j < out.len(),
        !dominates(r, out[j]),
    ensures
        without_dominated(out, r).contains(out[j]),
    decreases out.len(),
{
    let w = without_dominated(out, r);
    if j == out.len() - 1 {
        assert(w[w.len() - 1] == out[j]);
    } else {
        lemma_without_dominated_keeps(out.drop_last(), r, j);
        let wp = without_dominated(out.drop_last(), r);
        assert(out.drop_last()[j] == out[j]);
        let q = choose|q: int| 0 <= q < wp.len() && wp[q] == out[j];
        if !dominates(r, out.last()) {
            assert(w[q] == wp[q]);
        }
    }
}

/// Every result read is dominated by (or is) a kept result.
proof fn lemma_keep_undominated_covers(rs: Seq<RecognizerResult>)
    ensures
        forall|i: int| 0 <= i < rs.len() ==> dominated_in(keep_undominated(rs), #[trigger] rs[i]),
    decreases rs.len(),
{
    if rs.len() > 0 {
        let prev = rs.drop_last();
        let r = rs.last();
        lemma_keep_undominated_covers(prev);
        let out = keep_undominated(prev);
        let k = keep_undominated(rs);
        assert forall|i: int| 0 <= i < rs.len() implies dominated_in(k, #[trigger] rs[i]) by {
            if dominated_in(out, r) {
                if i < rs.len() - 1 {
                    assert(rs[i] == prev[i]);
                }
            } else {
                let w = without_dominated(out, r);
                assert(k == w.push(r));
                assert(k[k.len() - 1] == r);
                if i < rs.len() - 1 {
                    assert(rs[i] == prev[i]);
                    let j = choose|j: int| 0 <= j < out.len() && dominates(#[trigger] out[j], prev[i]);
                    if !dominates(r, out[j]) {
                        lemma_without_dominated_keeps(out, r, j);
                        let q = choose|q: int| 0 <= q < w.len() && w[q] == out[j];
                        assert(k[q] == w[q]);
                    }
                }
            }
        }
    }
}

proof fn lemma_at_least_keeps(rs: Seq<RecognizerResult>, th: u64)
    ensures
        forall|i: int|
            0 <= i < rs.len() && rs[i].score >= th ==> at_least(rs, th).contains(#[trigger] rs[i]),
    decreases rs.len(),
{
    if rs.len() > 0 {
        let prev = rs.drop_last();
        lemma_at_least_keeps(prev, th);
        let a = at_least(rs, th);
        assert forall|i: int| 0 <= i < rs.len() && rs[i].score >= th implies a.contains(
            #[trigger] rs[i],
        ) by {
            if i == rs.len() - 1 {
                assert(a[a.len() - 1] == rs[i]);
            } else {
                assert(rs[i] == prev[i]);
                let ap = at_least(prev, th);
                let q = choose|q: int| 0 <= q < ap.len() && ap[q] == prev[i];
                assert(a[q] == ap[q]);
            }
        }
    }
}

proof fn lemma_at_least_sub(rs: Seq<RecognizerResult>, th: u64)
    ensures
        at_least(rs, th).to_multiset().subset_of(rs.to_multiset()),
    decreases rs.len(),
{
    broadcast use vstd::seq_lib::group_to_multiset_ensures;

    if rs.len() > 0 {
        let prev = rs.drop_last();
        lemma_at_least_sub(prev, th);
        assert(prev.push(rs.last()) == rs);
    } else {
        assert(at_least(rs, th) =~= Seq::<RecognizerResult>::empty());
    }
}

proof fn lemma_without_dominated_sub(out: Seq<RecognizerResult>, r: RecognizerResult)
    ensures
        without_dominated(out, r).to_multiset().subset_of(out.to_multiset()),
    decreases out.len(),
{
    broadcast use vstd::seq_lib::group_to_multiset_ensures;

    if out.len() > 0 {
        let prev = out.drop_last();
        lemma_without_dominated_sub(prev, r);
        assert(prev.push(out.last()) == out);
    } else {
        assert(without_dominated(out, r) =~= Seq::<RecognizerResult>::empty());
    }
}

proof fn lemma_keep_undominated_sub(rs: Seq<RecognizerResult>)
    ensures
        keep_undominated(rs).to_multiset().subset_of(rs.to_multiset()),
    decreases rs.len(),
{
    broadcast use vstd::seq_lib::group_to_multiset_ensures;

    if rs.len() > 0 {
        let prev = rs.drop_last();
        let r = rs.last();
        lemma_keep_undominated_sub(prev);
        assert(prev.push(r) == rs);
        let out = keep_undominated(prev);
        if !dominated_in(out, r) {
            lemma_without_dominated_sub(out, r);
        }
    } else {
        assert(keep_undominated(rs) =~= Seq::<RecognizerResult>::empty());
    }
}

proof fn lemma_insert_by_key_multiset(
    rs: Seq<RecognizerResult>,
    order: Seq<int>,
    keys: Seq<(u64, u64)>,
    i: int,
)
    ensures
        permuted(rs, insert_by_key(order, keys, i)).to_multiset() =~= permuted(
            rs,
            order,
        ).to_multiset().insert(rs[i]),
    decreases order.len(),
{
    broadcast use vstd::seq_lib::group_to_multiset_ensures;

    let ins = insert_by_key(order, keys, i);
    if order.len() == 0 {
        assert(permuted(rs, ins) =~= Seq::<RecognizerResult>::empty().push(rs[i]));
        assert(permuted(rs, order) =~= Seq::<RecognizerResult>::empty());
    } else if key_ge(keys[order[0]], keys[i]) {
        let rest = order.drop_first();
        lemma_insert_by_key_multiset(rs, rest, keys, i);
        let one = seq![rs[order[0]]];
        assert(permuted(rs, ins) =~= one + permuted(rs, insert_by_key(rest, keys, i)));
        assert(permuted(rs, order) =~= one + permuted(rs, rest));
        vstd::seq_lib::lemma_multiset_commutative(one, permuted(rs, insert_by_key(rest, keys, i)));
        vstd::seq_lib::lemma_multiset_commutative(one, permuted(rs, rest));
    } else {
        let one = seq![rs[i]];
        assert(permuted(rs, ins) =~= one + permuted(rs, order));
        vstd::seq_lib::lemma_multiset_commutative(one, permuted(rs, order));
        vstd::seq_lib::lemma_seq_union_to_multiset_commutative(one, permuted(rs, order));
        assert(permuted(rs, order) + one =~= permuted(rs, order).push(rs[i]));
    }
}

/// Reordering by a stable order keeps the multiset of the results.
proof fn lemma_stable_order_multiset(rs: Seq<RecognizerResult>, keys: Seq<(u64, u64)>, n: int)
    requires
        0 <= n <= rs.len(),
    ensures
        permuted(rs, stable_order(keys, n)).to_multiset() =~= rs.take(n).to_multiset(),
    decreases n,
{
    broadcast use vstd::seq_lib::group_to_multiset_ensures;

    if n == 0 {
        assert(permuted(rs, stable_order(keys, 0)) =~= Seq::<RecognizerResult>::empty());
        assert(rs.take(0) =~= Seq::<RecognizerResult>::empty());
    } else {
        lemma_stable_order_multiset(rs, keys, n - 1);
        lemma_insert_by_key_multiset(rs, stable_order(keys, n - 1), keys, n - 1);
        assert(rs.take(n - 1).push(rs[n - 1]) =~= rs.take(n));
    }
}

/// What the analyzer reports is ordered by start, scores at least the
/// threshold, holds no result that another reported result dominates (a
/// range within its range, with no higher score), covers every result at
/// or above the threshold (each is dominated by, or is, a reported one),
/// and is drawn from the recognizers' results, each used at most as often
/// as it was reported.
pub proof fn law_analysis_is_reconciled(rs: Seq<RecognizerResult>, threshold: u64)
    ensures
        ({
            let out = ranked(rs, threshold);
            &&& forall|a: int, b: int|
                0 <= a < b < out.len() ==> (#[trigger] out[a]).start <= (#[trigger] out[b]).start
            &&& forall|i: int| 0 <= i < out.len() ==> (#[trigger] out[i]).score >= threshold
            &&& none_dominated(out)
            &&& forall|i: int| 0 <= i < out.len() ==> rs.contains(#[trigger] out[i])
            &&& forall|i: int|
                0 <= i < rs.len() && rs[i].score >= threshold ==> dominated_in(out, #[trigger] rs[i])
            &&& out.to_multiset().subset_of(rs.to_multiset())
        }),
{
    let al = at_least(rs, threshold);
    let st = sorted_by_start_then_score(al);
    let ku = keep_undominated(st);
    let out = ranked(rs, threshold);
    lemma_at_least(rs, threshold);
    lemma_sorted_by_start_then_score(al);
    lemma_keep_undominated(st);
    lemma_sorted_by_start(ku);
    assert(out == sorted_by_start(ku));
    assert forall|i: int| 0 <= i < out.len() implies (#[trigger] out[i]).score >= threshold
        && rs.contains(out[i]) by {
        let p = choose|p: int| 0 <= p < ku.len() && ku[p] == out[i];
        let q = choose|q: int| 0 <= q < st.len() && st[q] == ku[p];
        let m = choose|m: int| 0 <= m < al.len() && al[m] == st[q];
        assert(al[m].score >= threshold && rs.contains(al[m]));
    }
    // coverage
    let k1 = Seq::new(al.len(), |i: int| ((u64::MAX - al[i].start) as u64, al[i].score));
    let o1 = stable_order(k1, al.len() as int);
    lemma_stable_order_perm(k1, al.len() as int);
    let k2 = Seq::new(ku.len(), |i: int| ((u64::MAX - ku[i].start) as u64, 0u64));
    let o2 = stable_order(k2, ku.len() as int);
    lemma_stable_order_perm(k2, ku.len() as int);
    lemma_at_least_keeps(rs, threshold);
    lemma_keep_undominated_covers(st);
    assert forall|i: int| 0 <= i < rs.len() && rs[i].score >= threshold implies dominated_in(
        out,
        #[trigger] rs[i],
    ) by {
        let x = rs[i];
        assert(al.contains(x));
        let a = choose|a: int| 0 <= a < al.len() && al[a] == x;
        assert(o1.contains(a));
        let q = choose|q: int| 0 <= q < o1.len() && o1[q] == a;
        assert(st[q] == x);
        assert(dominated_in(ku, st[q]));
        let b = choose|b: int| 0 <= b < ku.len() && dominates(#[trigger] ku[b], x);
        assert(o2.contains(b));
        let c = choose|c: int| 0 <= c < o2.len() && o2[c] == b;
        assert(out[c] == ku[b]);
    }
    // multisets
    lemma_at_least_sub(rs, threshold);
    lemma_stable_order_multiset(al, k1, al.len() as int);
    assert(al.take(al.len() as int) =~= al);
    lemma_keep_undominated_sub(st);
    lemma_stable_order_multiset(ku, k2, ku.len() as int);
    assert(ku.take(ku.len() as int) =~= ku);
    assert(out.to_multiset() =~= ku.to_multiset());
    assert(st.to_multiset() =~= al.to_multiset());
}

// ---------------------------------------------------------------------------
// Masking
// ---------------------------------------------------------------------------

/// Masking replaces exactly `min(k, number of characters)` characters by
/// the mask character, the last ones when masking from the end and the
/// first ones otherwise, and keeps every other character: counts are in
/// characters, whatever their UTF-8 length.
pub proof fn law_mask_counts_characters(s: Seq<char>, m: char, k: nat, from_end: bool)
    ensures
        ({
            let r = masked(s, m, k, from_end);
            let n = s.len() as int;
            let t = if k < s.len() {
                k as int
            } else {
                n
            };
            &&& r.len() == n
            &&& from_end ==> forall|i: int| 0 <= i < n - t ==> #[trigger] r[i] == s[i]
            &&& from_end ==> forall|i: int| n - t <= i < n ==> #[trigger] r[i] == m
            &&& !from_end ==> forall|i: int| 0 <= i < t ==> #[trigger] r[i] == m
            &&& !from_end ==> forall|i: int| t <= i < n ==> #[trigger] r[i] == s[i]
        }),
{
}

/// Masking at most `u.len()` characters from the end of `s + u` leaves `s`
/// as it is and masks in `u` alone; masking from the start of `u + s` does
/// the same for the start.
pub proof fn law_mask_stays_in_its_end(s: Seq<char>, u: Seq<char>, m: char, k: nat)
    requires
        k <= u.len(),
    ensures
        masked(s + u, m, k, true) == s + masked(u, m, k, true),
        masked(u + s, m, k, false) == masked(u, m, k, false) + s,
{
    assert(masked(s + u, m, k, true) =~= s + masked(u, m, k, true));
    assert(masked(u + s, m, k, false) =~= masked(u, m, k, false) + s);
}

// ---------------------------------------------------------------------------
// Salted tokens
// ---------------------------------------------------------------------------

proof fn lemma_hex_fixed_len(v: nat, n: nat)
    ensures
        crate::text::hex_fixed(v, n).len() == n,
    decreases n,
{
    if n > 0 {
        lemma_hex_fixed_len(v / 16, (n - 1) as nat);
    }
}

proof fn lemma_hex_bytes_len(b: Seq<u8>)
    ensures
        hex_bytes(b).len() == 2 * b.len(),
    decreases b.len(),
{
    if b.len() > 0 {
        lemma_hex_bytes_len(b.drop_last());
        lemma_hex_fixed_len(b.last() as nat, 2);
    }
}

/// Every text hashed into a token starts with the vault's salt, a colon,
/// the category, a colon and the original, whatever the context and the
/// attempt.
pub proof fn law_token_input_starts_with_salt(
    salt: Seq<char>,
    category: Seq<char>,
    original: Seq<char>,
    context: Seq<char>,
    attempt: nat,
)
    ensures
        ({
            let p = salt + seq![':'] + category + seq![':'] + original;
            let t = token_input(salt, category, original, context, attempt);
            &&& p.len() <= t.len()
            &&& t.subrange(0, p.len() as int) == p
        }),
{
    let p = salt + seq![':'] + category + seq![':'] + original;
    let t = token_input(salt, category, original, context, attempt);
    assert(t.subrange(0, p.len() as int) =~= p);
}

/// Two vaults with different salts never hash the same text, whatever the
/// triples and attempts: their tokens are keyed by their salts.
pub proof fn law_salts_isolate_token_inputs(
    salt1: Seq<char>,
    salt2: Seq<char>,
    c1: Seq<char>,
    o1: Seq<char>,
    x1: Seq<char>,
    a1: nat,
    c2: Seq<char>,
    o2: Seq<char>,
    x2: Seq<char>,
    a2: nat,
)
    requires
        is_salt(salt1),
        is_salt(salt2),
        salt1 != salt2,
    ensures
        token_input(salt1, c1, o1, x1, a1) != token_input(salt2, c2, o2, x2, a2),
{
    let b1 = choose|b: Seq<u8>| b.len() == 16 && salt1 == hex_bytes(b);
    let b2 = choose|b: Seq<u8>| b.len() == 16 && salt2 == hex_bytes(b);
    lemma_hex_bytes_len(b1);
    lemma_hex_bytes_len(b2);
    law_token_input_starts_with_salt(salt1, c1, o1, x1, a1);
    law_token_input_starts_with_salt(salt2, c2, o2, x2, a2);
    let t1 = token_input(salt1, c1, o1, x1, a1);
    let t2 = token_input(salt2, c2, o2, x2, a2);
    if t1 == t2 {
        assert(t1.subrange(0, 32) =~= salt1);
        assert(t2.subrange(0, 32) =~= salt2);
    }
}

// ---------------------------------------------------------------------------
// Entity filters
// ---------------------------------------------------------------------------

/// A recognizer asked for some entity types runs when its own type is any
/// one of them, wherever it stands, exactly as when asked for none.
pub proof fn law_entity_filter_any_position(entities: Seq<EntityType>, e: Seq<char>, j: int)
    requires
        0 <= j < entities.len(),
        entities[j].0@ == e,
    ensures
        wanted(entities, e),
        wanted(entities, e) == wanted(Seq::empty(), e),
{
}

/// A recognizer asked for entity types none of which is its own does not
/// run.
pub proof fn law_entity_filter_excludes(entities: Seq<EntityType>, e: Seq<char>)
    requires
        entities.len() > 0,
        forall|j: int| 0 <= j < entities.len() ==> (#[trigger] entities[j]).0@ != e,
    ensures
        !wanted(entities, e),
{
}

// ---------------------------------------------------------------------------
// IBAN
// ---------------------------------------------------------------------------

/// An IBAN whose cleaned form is 5 to 34 ASCII characters is valid exactly
/// when the digit string of its characters from the fifth on, followed by
/// its first four, is 1 modulo 97: within that range the length plays no
/// other part.
pub proof fn law_iban_is_mod97(s: Seq<char>)
    requires
        5 <= iban_cleaned(s).len() <= 34,
        vstd::utf8::is_ascii_chars(iban_cleaned(s)),
    ensures
        ({
            let c = iban_cleaned(s);
            iban_valid(s) <==> digits_number(iban_numeric(c.subrange(4, c.len() as int) + c.subrange(0, 4)))
                % 97 == 1
        }),
{
    let c = iban_cleaned(s);
    let n = c.len() as int;
    vstd::utf8::is_ascii_chars_encode_utf8(c);
    vstd::utf8::is_ascii_chars_encode_utf8(c.take(4));
    assert(vstd::utf8::is_ascii_chars(c.take(4)));
    assert(c.take(0) =~= Seq::<char>::empty());
    assert(vstd::utf8::encode_utf8(c.take(0)) =~= Seq::<u8>::empty());
    assert(c.take(n) =~= c);
    lemma_byte_range_chars(c, 4, n);
    lemma_byte_range_chars(c, 0, 4);
    assert(c.subrange(0, 4) =~= c.take(4));
}

// ---------------------------------------------------------------------------
// Chinese identity numbers
// ---------------------------------------------------------------------------

/// The weights of the first seventeen digits are `2^(17 - i) mod 11`.
pub proof fn law_cn_weights_are_powers_of_two()
    ensures
        forall|i: int|
            0 <= i < 17 ==> #[trigger] cn_weights()[i] == vstd::arithmetic::power2::pow2(
                (17 - i) as nat,
            ) % 11,
{
    vstd::arithmetic::power2::lemma2_to64();
    assert forall|i: int| 0 <= i < 17 implies #[trigger] cn_weights()[i]
        == vstd::arithmetic::power2::pow2((17 - i) as nat) % 11 by {
        vstd::arithmetic::power2::lemma2_to64();
    }
}

/// ISO 7064 MOD 11-2: an 18-character identity number whose first
/// seventeen characters are digits is valid exactly when its last character
/// is a digit, or `X` (either case) standing for 10, whose value added to
/// the weighted sum of the first seventeen digits gives 1 modulo 11.
pub proof fn law_cn_id_is_mod11_2(s: Seq<char>)
    requires
        s.len() == 18,
        forall|i: int| 0 <= i < 17 ==> crate::text::is_ascii_digit(#[trigger] s[i]),
    ensures
        ({
            let w = weighted_sum(leading_digit_values(s, 17), cn_weights(), 17);
            let c = s[17];
            cn_id_valid(s) <==> ((crate::text::is_ascii_digit(c) && (w + (c as u32 - 48)) % 11 == 1)
                || ((c == 'X' || c == 'x') && (w + 10) % 11 == 1))
        }),
{
    let w = weighted_sum(leading_digit_values(s, 17), cn_weights(), 17);
    let c = s[17];
    let r = w % 11;
    let d = leading_digit_values(s, 17);
    assert forall|i: int| 0 <= i < d.len() implies d[i] <= 9 by {
        assert(crate::text::is_ascii_digit(s[i]));
    }
    crate::checksum::lemma_weighted_sum_bound(d, cn_weights(), 17);
    assert(0 <= r < 11);
    assert((w + 10) % 11 == (r + 10) % 11);
    let u = c as u32;
    // the expected code of each remainder: X for 2, the digit (12 - r) mod 11 otherwise
    let e: int = if r == 2 { 88 } else { 48 + (12 - r) % 11 };
    if r == 0 {
        assert(crate::checksum::cn_check_chars()[0] == '1');
    } else if r == 1 {
        assert(crate::checksum::cn_check_chars()[1] == '0');
    } else if r == 2 {
        assert(crate::checksum::cn_check_chars()[2] == 'X');
    } else if r == 3 {
        assert(crate::checksum::cn_check_chars()[3] == '9');
    } else if r == 4 {
        assert(crate::checksum::cn_check_chars()[4] == '8');
    } else if r == 5 {
        assert(crate::checksum::cn_check_chars()[5] == '7');
    } else if r == 6 {
        assert(crate::checksum::cn_check_chars()[6] == '6');
    } else if r == 7 {
        assert(crate::checksum::cn_check_chars()[7] == '5');
    } else if r == 8 {
        assert(crate::checksum::cn_check_chars()[8] == '4');
    } else if r == 9 {
        assert(crate::checksum::cn_check_chars()[9] == '3');
    } else if r == 10 {
        assert(crate::checksum::cn_check_chars()[10] == '2');
    }
    assert(crate::checksum::cn_check_chars()[r] as u32 == e);
    assert(cn_id_valid(s) <==> ascii_upper_code(c) == e);
    if crate::text::is_ascii_digit(c) {
        let d = u - 48;
        assert((w + d) % 11 == (r + d) % 11);
        assert(ascii_upper_code(c) == u);
    } else if c == 'X' || c == 'x' {
        assert(ascii_upper_code(c) == 88);
    } else {
        assert(ascii_upper_code(c) != 88) by {
            vstd::utf8::char_u32_cast(c, u);
            vstd::utf8::char_u32_cast('x', 120);
            vstd::utf8::char_u32_cast('X', 88);
            if 97 <= u <= 122 {
                assert(u != 120);
            } else {
                assert(u != 88);
            }
        }
        assert(!(48 <= u <= 57)) by {
            if 48 <= u <= 57 {
                vstd::utf8::char_u32_cast(c, u);
                assert('0' <= c && c <= '9');
            }
        }
        assert(!(48 <= ascii_upper_code(c) <= 57));
    }
}

} // verus!
