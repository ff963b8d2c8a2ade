//! Restoring texts that are laid out as a head followed by slots and gaps:
//! `head + fills[0] + gaps[0] + fills[1] + gaps[1] + ...`, where each slot
//! holds either a token or the original it stands for.
use vstd::prelude::*;

use crate::anonymizer::{
    anonymize_run, anonymize_step, chosen_operator, entity_order, replacement, splice, ItemCore,
    Operator,
};
use crate::entity::RecognizerResult;
use crate::laws::{law_tokenize_keeps_tokens_unambiguous, lemma_find_key_bounds, tokens_unambiguous};
use crate::order::lemma_stable_order_perm;
use vstd::utf8::encode_utf8;
use crate::text::{
    byte_len, byte_range, contains_seq, fnv1a, hex_char, hex_fixed, is_byte_range, lemma_boundary_index,
    lemma_byte_range_chars, lemma_prefix_len_grows, occurs_at, replace_all, unicode_uppercase,
};
use crate::vault::{
    core_key, detokenize_text, find_key, first_free_attempt, candidate_token, replace_in_order,
    restore_keys, restore_order, token_input, token_text, tokenize_core, vault_key, EntryCore,
};

verus! {

/// `fills[0] + gaps[0] + fills[1] + gaps[1] + ...`
pub open spec fn trail(fills: Seq<Seq<char>>, gaps: Seq<Seq<char>>) -> Seq<char>
    decreases fills.len(),
{
    if fills.len() == 0 || gaps.len() == 0 {
        Seq::empty()
    } else {
        fills[0] + gaps[0] + trail(fills.drop_first(), gaps.drop_first())
    }
}

/// Where slot `i` begins in `trail(fills, gaps)`.
pub open spec fn slot_start(fills: Seq<Seq<char>>, gaps: Seq<Seq<char>>, i: int) -> int
    decreases i,
{
    if i <= 0 || fills.len() == 0 || gaps.len() == 0 {
        0
    } else {
        fills[0].len() + gaps[0].len() + slot_start(fills.drop_first(), gaps.drop_first(), i - 1)
    }
}

/// Every occurrence of `t` in `head + trail(fills, gaps)` is a whole slot
/// that holds `t`.
pub open spec fn occurs_only_in_slots(
    head: Seq<char>,
    fills: Seq<Seq<char>>,
    gaps: Seq<Seq<char>>,
    t: Seq<char>,
) -> bool {
    forall|p: int|
        #[trigger] occurs_at(head + trail(fills, gaps), t, p) ==> exists|i: int|
            0 <= i < fills.len() && p == head.len() + slot_start(fills, gaps, i) && fills[i] == t
}

/// The slots whose token is in `done` hold their original, the others
/// their token.
pub open spec fn partly_restored(
    toks: Seq<Seq<char>>,
    origs: Seq<Seq<char>>,
    done: Set<Seq<char>>,
) -> Seq<Seq<char>> {
    Seq::new(toks.len(), |i: int| if done.contains(toks[i]) { origs[i] } else { toks[i] })
}

/// The tokens that restoring has replaced after its first `q` steps.
pub open spec fn restored_tokens(es: Seq<EntryCore>, q: int) -> Set<Seq<char>> {
    Set::new(|t: Seq<char>| exists|m: int| 0 <= m < q && es[restore_order(es)[m]].0 == t)
}

/// Step `q` of restoring meets a text in which its token occurs only as
/// whole slots that still hold that token: with the slots of the tokens
/// restored so far holding their originals, every occurrence of the token
/// is a slot, and a slot that holds it is a slot of that token.
pub open spec fn step_is_clean(
    es: Seq<EntryCore>,
    head: Seq<char>,
    toks: Seq<Seq<char>>,
    origs: Seq<Seq<char>>,
    gaps: Seq<Seq<char>>,
    q: int,
) -> bool {
    let t = es[restore_order(es)[q]].0;
    let fills = partly_restored(toks, origs, restored_tokens(es, q));
    &&& occurs_only_in_slots(head, fills, gaps, t)
    &&& forall|i: int| 0 <= i < fills.len() && fills[i] == t ==> toks[i] == t
}

/// The fills with every slot that holds `t` holding `o` instead.
pub open spec fn swapped(fills: Seq<Seq<char>>, t: Seq<char>, o: Seq<char>) -> Seq<Seq<char>> {
    Seq::new(fills.len(), |i: int| if fills[i] == t { o } else { fills[i] })
}

// ---------------------------------------------------------------------------
// Replacing in concatenations
// ---------------------------------------------------------------------------

pub proof fn lemma_occurs_left(x: Seq<char>, y: Seq<char>, t: Seq<char>, p: int)
    requires
        occurs_at(x, t, p),
    ensures
        occurs_at(x + y, t, p),
{
    assert((x + y).subrange(p, p + t.len()) =~= x.subrange(p, p + t.len()));
}

pub proof fn lemma_occurs_right(x: Seq<char>, y: Seq<char>, t: Seq<char>, p: int)
    requires
        occurs_at(y, t, p),
    ensures
        occurs_at(x + y, t, p + x.len()),
{
    assert((x + y).subrange(p + x.len(), p + x.len() + t.len()) =~= y.subrange(p, p + t.len()));
}

/// Replacing in a text where the pattern does not occur changes nothing.
pub proof fn lemma_replace_absent(s: Seq<char>, pat: Seq<char>, rep: Seq<char>)
    requires
        pat.len() > 0,
        !contains_seq(s, pat),
    ensures
        replace_all(s, pat, rep) == s,
    decreases s.len(),
{
    if s.len() > 0 {
        if s.len() >= pat.len() && s.take(pat.len() as int) == pat {
            assert(occurs_at(s, pat, 0));
        }
        assert forall|i: int| !occurs_at(s.drop_first(), pat, i) by {
            if occurs_at(s.drop_first(), pat, i) {
                assert(seq![s[0]] + s.drop_first() == s);
                lemma_occurs_right(seq![s[0]], s.drop_first(), pat, i);
            }
        }
        lemma_replace_absent(s.drop_first(), pat, rep);
        assert(seq![s[0]] + s.drop_first() == s);
    }
}

/// Replacing in `x + y`, where no occurrence of the pattern straddles the
/// border, replaces in `x` and in `y` apart.
pub proof fn lemma_replace_concat(x: Seq<char>, y: Seq<char>, t: Seq<char>, o: Seq<char>)
    requires
        t.len() > 0,
        forall|p: int| 0 <= p < x.len() && p + t.len() > x.len() ==> !occurs_at(x + y, t, p),
    ensures
        replace_all(x + y, t, o) == replace_all(x, t, o) + replace_all(y, t, o),
    decreases x.len(),
{
    let s = x + y;
    let n = t.len() as int;
    if x.len() == 0 {
        assert(s =~= y);
        assert(replace_all(x, t, o) =~= Seq::<char>::empty());
        assert(Seq::<char>::empty() + replace_all(y, t, o) =~= replace_all(y, t, o));
    } else if s.len() >= n && s.take(n) == t {
        assert(s.subrange(0, n) =~= s.take(n));
        assert(occurs_at(s, t, 0));
        assert(n <= x.len());
        assert(x.take(n) =~= s.take(n));
        let x2 = x.skip(n);
        assert(s.skip(n) =~= x2 + y);
        assert(x.take(n) + (x2 + y) =~= s);
        assert forall|p: int| 0 <= p < x2.len() && p + n > x2.len() implies !occurs_at(
            x2 + y,
            t,
            p,
        ) by {
            if occurs_at(x2 + y, t, p) {
                lemma_occurs_right(x.take(n), x2 + y, t, p);
            }
        }
        lemma_replace_concat(x2, y, t, o);
        assert(o + (replace_all(x2, t, o) + replace_all(y, t, o)) =~= (o + replace_all(x2, t, o))
            + replace_all(y, t, o));
    } else {
        assert(!(x.len() >= n && x.take(n) == t)) by {
            if x.len() >= n && x.take(n) == t {
                assert(s.take(n) =~= x.take(n));
            }
        }
        let x2 = x.drop_first();
        assert(s.drop_first() =~= x2 + y);
        assert(seq![x[0]] + (x2 + y) =~= s);
        assert forall|p: int| 0 <= p < x2.len() && p + n > x2.len() implies !occurs_at(
            x2 + y,
            t,
            p,
        ) by {
            if occurs_at(x2 + y, t, p) {
                lemma_occurs_right(seq![x[0]], x2 + y, t, p);
            }
        }
        lemma_replace_concat(x2, y, t, o);
        assert(seq![x[0]] + (replace_all(x2, t, o) + replace_all(y, t, o)) =~= (seq![x[0]]
            + replace_all(x2, t, o)) + replace_all(y, t, o));
    }
}

proof fn lemma_replace_whole(t: Seq<char>, o: Seq<char>)
    requires
        t.len() > 0,
    ensures
        replace_all(t, t, o) == o,
{
    assert(t.take(t.len() as int) =~= t);
    assert(t.skip(t.len() as int) =~= Seq::<char>::empty());
    assert(replace_all(Seq::<char>::empty(), t, o) =~= Seq::<char>::empty());
    assert(o + Seq::<char>::empty() =~= o);
}

// ---------------------------------------------------------------------------
// Replacing in a layout
// ---------------------------------------------------------------------------

proof fn lemma_slot_nonneg(fills: Seq<Seq<char>>, gaps: Seq<Seq<char>>, i: int)
    ensures
        slot_start(fills, gaps, i) >= 0,
    decreases i,
{
    if i > 0 && fills.len() > 0 && gaps.len() > 0 {
        lemma_slot_nonneg(fills.drop_first(), gaps.drop_first(), i - 1);
    }
}

proof fn lemma_replace_trail(fills: Seq<Seq<char>>, gaps: Seq<Seq<char>>, t: Seq<char>, o: Seq<char>)
    requires
        t.len() > 0,
        fills.len() == gaps.len(),
        forall|p: int|
            #[trigger] occurs_at(trail(fills, gaps), t, p) ==> exists|i: int|
                0 <= i < fills.len() && p == slot_start(fills, gaps, i) && fills[i] == t,
    ensures
        replace_all(trail(fills, gaps), t, o) == trail(swapped(fills, t, o), gaps),
    decreases fills.len(),
{
    if fills.len() == 0 {
        assert(trail(fills, gaps) =~= Seq::<char>::empty());
        assert(replace_all(Seq::<char>::empty(), t, o) =~= Seq::<char>::empty());
    } else {
        let f0 = fills[0];
        let g0 = gaps[0];
        let f2 = fills.drop_first();
        let g2 = gaps.drop_first();
        let rest = trail(f2, g2);
        let s = trail(fills, gaps);
        assert(s == f0 + g0 + rest);
        assert(f0 + (g0 + rest) =~= s);
        assert forall|i: int| 1 <= i < fills.len() implies slot_start(fills, gaps, i) >= f0.len()
            + g0.len() by {
            lemma_slot_nonneg(f2, g2, i - 1);
        }
        // the first slot
        assert forall|p: int| 0 <= p < f0.len() && p + t.len() > f0.len() implies !occurs_at(
            f0 + (g0 + rest),
            t,
            p,
        ) by {
            if occurs_at(f0 + (g0 + rest), t, p) {
                let i = choose|i: int|
                    0 <= i < fills.len() && p == slot_start(fills, gaps, i) && fills[i] == t;
                if i > 0 {
                    assert(slot_start(fills, gaps, i) >= f0.len() + g0.len());
                }
            }
        }
        lemma_replace_concat(f0, g0 + rest, t, o);
        if f0 == t {
            lemma_replace_whole(t, o);
        } else {
            assert forall|p: int| !occurs_at(f0, t, p) by {
                if occurs_at(f0, t, p) {
                    lemma_occurs_left(f0, g0 + rest, t, p);
                    let i = choose|i: int|
                        0 <= i < fills.len() && p == slot_start(fills, gaps, i) && fills[i] == t;
                    if i > 0 {
                        assert(slot_start(fills, gaps, i) >= f0.len() + g0.len());
                    }
                }
            }
            lemma_replace_absent(f0, t, o);
        }
        // the first gap
        assert forall|p: int| 0 <= p < g0.len() && p + t.len() > g0.len() implies !occurs_at(
            g0 + rest,
            t,
            p,
        ) by {
            if occurs_at(g0 + rest, t, p) {
                lemma_occurs_right(f0, g0 + rest, t, p);
                let i = choose|i: int|
                    0 <= i < fills.len() && p + f0.len() == slot_start(fills, gaps, i) && fills[i]
                        == t;
                if i > 0 {
                    assert(slot_start(fills, gaps, i) >= f0.len() + g0.len());
                }
            }
        }
        lemma_replace_concat(g0, rest, t, o);
        assert forall|p: int| !occurs_at(g0, t, p) by {
            if occurs_at(g0, t, p) {
                lemma_occurs_left(g0, rest, t, p);
                lemma_occurs_right(f0, g0 + rest, t, p);
                let i = choose|i: int|
                    0 <= i < fills.len() && p + f0.len() == slot_start(fills, gaps, i) && fills[i]
                        == t;
                if i > 0 {
                    assert(slot_start(fills, gaps, i) >= f0.len() + g0.len());
                }
            }
        }
        lemma_replace_absent(g0, t, o);
        // the rest
        assert forall|p: int| #[trigger] occurs_at(rest, t, p) implies exists|i: int|
            0 <= i < f2.len() && p == slot_start(f2, g2, i) && f2[i] == t by {
            lemma_occurs_right(g0, rest, t, p);
            lemma_occurs_right(f0, g0 + rest, t, p + g0.len());
            let i = choose|i: int|
                0 <= i < fills.len() && p + g0.len() + f0.len() == slot_start(fills, gaps, i)
                    && fills[i] == t;
            if i > 0 {
                assert(f2[i - 1] == fills[i]);
                assert(p == slot_start(f2, g2, i - 1));
            }
        }
        lemma_replace_trail(f2, g2, t, o);
        let sw = swapped(fills, t, o);
        assert(sw.drop_first() =~= swapped(f2, t, o));
        assert(trail(sw, gaps) == sw[0] + g0 + trail(sw.drop_first(), g2));
        assert(replace_all(f0, t, o) == sw[0]);
        assert(replace_all(s, t, o) =~= sw[0] + g0 + trail(swapped(f2, t, o), g2));
    }
}

proof fn lemma_replace_layout(
    head: Seq<char>,
    fills: Seq<Seq<char>>,
    gaps: Seq<Seq<char>>,
    t: Seq<char>,
    o: Seq<char>,
)
    requires
        t.len() > 0,
        fills.len() == gaps.len(),
        occurs_only_in_slots(head, fills, gaps, t),
    ensures
        replace_all(head + trail(fills, gaps), t, o) == head + trail(swapped(fills, t, o), gaps),
{
    let tr = trail(fills, gaps);
    assert forall|i: int| 0 <= i < fills.len() implies slot_start(fills, gaps, i) >= 0 by {
        lemma_slot_nonneg(fills, gaps, i);
    }
    assert forall|p: int| 0 <= p < head.len() && p + t.len() > head.len() implies !occurs_at(
        head + tr,
        t,
        p,
    ) by {
        if occurs_at(head + tr, t, p) {
            let i = choose|i: int|
                0 <= i < fills.len() && p == head.len() + slot_start(fills, gaps, i) && fills[i]
                    == t;
        }
    }
    lemma_replace_concat(head, tr, t, o);
    assert forall|p: int| !occurs_at(head, t, p) by {
        if occurs_at(head, t, p) {
            lemma_occurs_left(head, tr, t, p);
            let i = choose|i: int|
                0 <= i < fills.len() && p == head.len() + slot_start(fills, gaps, i) && fills[i]
                    == t;
        }
    }
    lemma_replace_absent(head, t, o);
    assert forall|p: int| #[trigger] occurs_at(tr, t, p) implies exists|i: int|
        0 <= i < fills.len() && p == slot_start(fills, gaps, i) && fills[i] == t by {
        lemma_occurs_right(head, tr, t, p);
        let i = choose|i: int|
            0 <= i < fills.len() && p + head.len() == head.len() + slot_start(fills, gaps, i)
                && fills[i] == t;
    }
    lemma_replace_trail(fills, gaps, t, o);
}

// ---------------------------------------------------------------------------
// Restoring a layout
// ---------------------------------------------------------------------------

pub proof fn lemma_restore_prefix(
    es: Seq<EntryCore>,
    head: Seq<char>,
    toks: Seq<Seq<char>>,
    origs: Seq<Seq<char>>,
    gaps: Seq<Seq<char>>,
    q: int,
)
    requires
        0 <= q <= es.len(),
        toks.len() == origs.len(),
        toks.len() == gaps.len(),
        forall|k: int| 0 <= k < es.len() ==> (#[trigger] es[k]).0.len() > 0,
        forall|i: int, k: int|
            0 <= i < toks.len() && 0 <= k < es.len() && (#[trigger] es[k]).0 == #[trigger] toks[i]
                ==> es[k].1 == origs[i],
        forall|m: int| 0 <= m < es.len() ==> #[trigger] step_is_clean(es, head, toks, origs, gaps, m),
    ensures
        replace_in_order(es, restore_order(es).take(q), head + trail(toks, gaps)) == head + trail(
            partly_restored(toks, origs, restored_tokens(es, q)),
            gaps,
        ),
    decreases q,
{
    let order = restore_order(es);
    lemma_stable_order_perm(restore_keys(es), es.len() as int);
    if q == 0 {
        assert(order.take(0) =~= Seq::<int>::empty());
        assert(partly_restored(toks, origs, restored_tokens(es, 0)) =~= toks);
    } else {
        lemma_restore_prefix(es, head, toks, origs, gaps, q - 1);
        assert(order.take(q).drop_last() =~= order.take(q - 1));
        assert(order.take(q).last() == order[q - 1]);
        let j = order[q - 1];
        let t = es[j].0;
        let o = es[j].1;
        let done = restored_tokens(es, q - 1);
        let done2 = restored_tokens(es, q);
        let fills = partly_restored(toks, origs, done);
        assert(step_is_clean(es, head, toks, origs, gaps, q - 1));
        lemma_replace_layout(head, fills, gaps, t, o);
        assert forall|x: Seq<char>| done2.contains(x) <==> done.contains(x) || x == t by {
            if done2.contains(x) {
                let m = choose|m: int| 0 <= m < q && es[order[m]].0 == x;
                if m < q - 1 {
                    assert(done.contains(x));
                }
            }
            if done.contains(x) {
                let m = choose|m: int| 0 <= m < q - 1 && es[order[m]].0 == x;
                assert(done2.contains(x));
            }
            if x == t {
                assert(es[order[q - 1]].0 == x);
                assert(done2.contains(x));
            }
        }
        assert(swapped(fills, t, o) =~= partly_restored(toks, origs, done2)) by {
            assert forall|i: int| 0 <= i < toks.len() implies swapped(fills, t, o)[i]
                == partly_restored(toks, origs, done2)[i] by {
                if fills[i] == t {
                    assert(toks[i] == t);
                    assert(es[j].0 == toks[i]);
                } else if !done.contains(toks[i]) && toks[i] == t {
                    assert(fills[i] == toks[i]);
                }
            }
        }
    }
}

/// Restoring a text laid out as `head + trail(toks, gaps)`, where each slot
/// holds a stored token, every entry with the token of slot `i` stores
/// `origs[i]`, tokens are not empty, and each step of restoring meets its
/// token only as whole slots that still hold it, gives
/// `head + trail(origs, gaps)`.
pub proof fn law_detokenize_restores_layout(
    es: Seq<EntryCore>,
    head: Seq<char>,
    toks: Seq<Seq<char>>,
    origs: Seq<Seq<char>>,
    gaps: Seq<Seq<char>>,
)
    requires
        toks.len() == origs.len(),
        toks.len() == gaps.len(),
        forall|k: int| 0 <= k < es.len() ==> (#[trigger] es[k]).0.len() > 0,
        forall|i: int|
            0 <= i < toks.len() ==> exists|k: int| 0 <= k < es.len() && es[k].0 == #[trigger] toks[i],
        forall|i: int, k: int|
            0 <= i < toks.len() && 0 <= k < es.len() && (#[trigger] es[k]).0 == #[trigger] toks[i]
                ==> es[k].1 == origs[i],
        forall|m: int| 0 <= m < es.len() ==> #[trigger] step_is_clean(es, head, toks, origs, gaps, m),
    ensures
        detokenize_text(es, head + trail(toks, gaps)) == head + trail(origs, gaps),
{
    let order = restore_order(es);
    lemma_stable_order_perm(restore_keys(es), es.len() as int);
    lemma_restore_prefix(es, head, toks, origs, gaps, es.len() as int);
    assert(order.take(es.len() as int) =~= order);
    let done = restored_tokens(es, es.len() as int);
    assert(partly_restored(toks, origs, done) =~= origs) by {
        assert forall|i: int| 0 <= i < toks.len() implies done.contains(toks[i]) by {
            let k = choose|k: int| 0 <= k < es.len() && es[k].0 == toks[i];
            assert(order.contains(k));
            let m = choose|m: int| 0 <= m < order.len() && order[m] == k;
            assert(es[order[m]].0 == toks[i]);
        }
    }
}

// ---------------------------------------------------------------------------
// The layout of an anonymized text
// ---------------------------------------------------------------------------

/// How far the `k`-th span that the anonymizer replaces may reach: the end
/// of the text for the first one, the start of the span replaced before it
/// for the others.
pub open spec fn span_bound(text: Seq<char>, ents: Seq<RecognizerResult>, k: int) -> int {
    if k <= 0 {
        byte_len(text)
    } else {
        ents[entity_order(ents)[k - 1]].start as int
    }
}

/// The text before the first `k` spans the anonymizer replaces.
pub open spec fn layout_head(text: Seq<char>, ents: Seq<RecognizerResult>, k: int) -> Seq<char> {
    byte_range(text, 0, span_bound(text, ents, k))
}

/// The texts that follow each of the first `k` spans the anonymizer
/// replaces, in text order.
pub open spec fn layout_gaps(text: Seq<char>, ents: Seq<RecognizerResult>, k: int) -> Seq<
    Seq<char>,
> {
    Seq::new(
        k as nat,
        |j: int|
            byte_range(
                text,
                ents[entity_order(ents)[k - 1 - j]].end as int,
                span_bound(text, ents, k - 1 - j),
            ),
    )
}

/// The texts of the first `k` spans the anonymizer replaces, in text order.
pub open spec fn layout_origs(text: Seq<char>, ents: Seq<RecognizerResult>, k: int) -> Seq<
    Seq<char>,
> {
    Seq::new(k as nat, |j: int| span_text(text, ents[entity_order(ents)[k - 1 - j]]))
}

/// The replacements recorded in `items`, in text order.
pub open spec fn layout_repls(items: Seq<ItemCore>) -> Seq<Seq<char>> {
    Seq::new(items.len(), |j: int| items[items.len() - 1 - j].4)
}

/// The text of a span.
pub open spec fn span_text(text: Seq<char>, e: RecognizerResult) -> Seq<char> {
    byte_range(text, e.start as int, e.end as int)
}

/// In the order the anonymizer replaces them (by start, last first), each
/// span ends at or before the start of the span replaced before it.
pub open spec fn spans_apart(ents: Seq<RecognizerResult>) -> bool {
    forall|k: int|
        1 <= k < ents.len() ==> ents[#[trigger] entity_order(ents)[k]].end <= ents[entity_order(
            ents,
        )[k - 1]].start
}

/// The vault while a text is anonymized: its tokens are not empty and
/// stand for one original each.
pub open spec fn vault_sound(es: Seq<EntryCore>) -> bool {
    &&& forall|k: int| 0 <= k < es.len() ==> (#[trigger] es[k]).0.len() > 0
    &&& tokens_unambiguous(es)
}

proof fn lemma_vault_step(
    es: Seq<EntryCore>,
    salt: Seq<char>,
    text: Seq<char>,
    ents: Seq<RecognizerResult>,
    i0: int,
)
    requires
        0 <= i0 < ents.len(),
        vault_sound(es),
        tokenize_core(
            es,
            salt,
            ents[i0].entity_type.0@,
            span_text(text, ents[i0]),
            Seq::empty(),
        ) is Some,
    ensures
        ({
            let r = tokenize_core(
                es,
                salt,
                ents[i0].entity_type.0@,
                span_text(text, ents[i0]),
                Seq::empty(),
            ).unwrap();
            &&& vault_sound(r.0)
            &&& r.0.len() >= es.len()
            &&& forall|m: int|
                0 <= m < es.len() ==> (#[trigger] r.0[m]).0 == es[m].0 && r.0[m].1 == es[m].1
            &&& exists|m: int|
                0 <= m < r.0.len() && (#[trigger] r.0[m]).0 == r.1 && r.0[m].1 == span_text(
                    text,
                    ents[i0],
                )
        }),
{
    let c = ents[i0].entity_type.0@;
    let o = span_text(text, ents[i0]);
    let x = Seq::<char>::empty();
    let key = vault_key(c, o, x);
    lemma_find_key_bounds(es, key);
    law_tokenize_keeps_tokens_unambiguous(es, salt, c, o, x);
    let r = tokenize_core(es, salt, c, o, x).unwrap();
    match find_key(es, key) {
        Some(i) => {
            let e = es[i];
            assert(r.0 == es.update(i, (e.0, e.1, e.2, e.3, (e.4 + 1) as u32)));
            assert(e.1 == o);
            assert(r.0[i].0 == r.1 && r.0[i].1 == o);
        },
        None => {
            let a = first_free_attempt(es, salt, c, o, x, 0).unwrap();
            let t = candidate_token(salt, c, o, x, a);
            assert(r.0 == es.push((t, o, c, x, 1u32)));
            assert(t.len() > 0);
            assert(r.0[es.len() as int].0 == r.1);
        },
    }
}

/// Splicing a replacement into a text whose head is still the prefix
/// `text.take(ib)` of the text anonymized, within that head.
proof fn lemma_splice_layout(text: Seq<char>, ib: int, w: Seq<char>, s: int, e: int, tok: Seq<char>) -> (is: int)
    requires
        0 <= ib <= text.len(),
        is_byte_range(text, s, e),
        e <= byte_len(text.take(ib)),
    ensures
        0 <= is <= ib,
        byte_len(text.take(is)) == s,
        splice(text.take(ib) + w, s, e, tok) == text.take(is) + (tok + (byte_range(
            text,
            e,
            byte_len(text.take(ib)),
        ) + w)),
        text.take(ib) == text.take(is) + (byte_range(text, s, e) + byte_range(
            text,
            e,
            byte_len(text.take(ib)),
        )),
{
    let is = lemma_boundary_index(text, s);
    let ie = lemma_boundary_index(text, e);
    if is > ie {
        lemma_prefix_len_grows(text, ie, is);
    }
    if ie > ib {
        lemma_prefix_len_grows(text, ib, ie);
    }
    let r = text.take(ib) + w;
    assert(r.take(is) =~= text.take(is));
    assert(r.take(ie) =~= text.take(ie));
    assert(r.take(0) =~= Seq::<char>::empty());
    assert(r.take(r.len() as int) =~= r);
    lemma_byte_range_chars(r, 0, is);
    lemma_byte_range_chars(r, ie, r.len() as int);
    assert(r.subrange(0, is) =~= text.take(is));
    assert(r.subrange(ie, r.len() as int) =~= text.subrange(ie, ib) + w);
    lemma_byte_range_chars(text, ie, ib);
    lemma_byte_range_chars(text, is, ie);
    assert(splice(r, s, e, tok) =~= text.take(is) + (tok + (text.subrange(ie, ib) + w)));
    assert(text.take(ib) =~= text.take(is) + (text.subrange(is, ie) + text.subrange(ie, ib)));
    is
}

/// The pair (`t`, `o`) is stored in the vault.
pub open spec fn stored(es: Seq<EntryCore>, t: Seq<char>, o: Seq<char>) -> bool {
    exists|x: int| 0 <= x < es.len() && (#[trigger] es[x]).0 == t && es[x].1 == o
}

/// Each recorded replacement replaced the text of its span by a token that
/// the vault stores with that text.
pub open spec fn items_stored(
    text: Seq<char>,
    ents: Seq<RecognizerResult>,
    items: Seq<ItemCore>,
    es: Seq<EntryCore>,
) -> bool {
    forall|m: int|
        0 <= m < items.len() ==> (#[trigger] items[m]).3 == span_text(
            text,
            ents[entity_order(ents)[m]],
        ) && stored(es, items[m].4, items[m].3)
}

/// After the first `k` steps of an anonymization in which every span is
/// replaced by a vault token: the text is the unchanged head
/// `text.take(ib)` followed by the tokens and the gaps between them, the
/// text anonymized is that head followed by the spans' texts and the same gaps,
/// and the vault stores each token with the text it replaced.
pub open spec fn layout_holds(
    text: Seq<char>,
    ents: Seq<RecognizerResult>,
    k: int,
    st: (Seq<char>, Seq<ItemCore>, Option<Seq<EntryCore>>),
    ib: int,
) -> bool {
    &&& st.2 is Some
    &&& vault_sound(st.2.unwrap())
    &&& st.1.len() == k
    &&& 0 <= ib <= text.len()
    &&& byte_len(text.take(ib)) == span_bound(text, ents, k)
    &&& st.0 == text.take(ib) + trail(layout_repls(st.1), layout_gaps(text, ents, k))
    &&& text == text.take(ib) + trail(layout_origs(text, ents, k), layout_gaps(text, ents, k))
    &&& items_stored(text, ents, st.1, st.2.unwrap())
}

proof fn lemma_step_vault(
    text: Seq<char>,
    e: RecognizerResult,
    ops: Map<Seq<char>, Operator>,
    default: Operator,
    r: Seq<char>,
    es: Seq<EntryCore>,
    salt: Seq<char>,
)
    requires
        chosen_operator(ops, e.entity_type.0@, default) is Vault,
        anonymize_step(text, e, ops, default, r, Some(es), salt) is Some,
    ensures
        ({
            let orig = span_text(text, e);
            let tz = tokenize_core(es, salt, e.entity_type.0@, orig, Seq::empty());
            &&& is_byte_range(text, e.start as int, e.end as int)
            &&& tz is Some
            &&& anonymize_step(text, e, ops, default, r, Some(es), salt) == Some(
                (
                    splice(r, e.start as int, e.end as int, tz.unwrap().1),
                    (e.entity_type.0@, e.start, e.end, orig, tz.unwrap().1),
                    Some(tz.unwrap().0),
                ),
            )
        }),
{
    reveal(anonymize_step);
}

proof fn lemma_items_step(
    text: Seq<char>,
    ents: Seq<RecognizerResult>,
    items: Seq<ItemCore>,
    es: Seq<EntryCore>,
    item: ItemCore,
    es2: Seq<EntryCore>,
)
    requires
        items_stored(text, ents, items, es),
        es2.len() >= es.len(),
        forall|m: int| 0 <= m < es.len() ==> (#[trigger] es2[m]).0 == es[m].0 && es2[m].1 == es[m].1,
        item.3 == span_text(text, ents[entity_order(ents)[items.len() as int]]),
        stored(es2, item.4, item.3),
    ensures
        items_stored(text, ents, items.push(item), es2),
{
    let its = items.push(item);
    assert forall|m: int| 0 <= m < its.len() implies (#[trigger] its[m]).3 == span_text(
        text,
        ents[entity_order(ents)[m]],
    ) && stored(es2, its[m].4, its[m].3) by {
        if m < items.len() {
            assert(its[m] == items[m]);
            let x = choose|x: int|
                0 <= x < es.len() && (#[trigger] es[x]).0 == items[m].4 && es[x].1 == items[m].3;
            assert(es2[x].0 == es[x].0 && es2[x].1 == es[x].1);
        } else {
            assert(its[m] == item);
        }
    }
}

#[verifier::rlimit(40)]
proof fn lemma_run_step(
    text: Seq<char>,
    ents: Seq<RecognizerResult>,
    ops: Map<Seq<char>, Operator>,
    default: Operator,
    salt: Seq<char>,
    k: int,
    prev: (Seq<char>, Seq<ItemCore>, Option<Seq<EntryCore>>),
    ib0: int,
) -> (is: int)
    requires
        1 <= k <= ents.len(),
        forall|i: int|
            0 <= i < ents.len() ==> chosen_operator(ops, (#[trigger] ents[i]).entity_type.0@, default) is Vault,
        spans_apart(ents),
        layout_holds(text, ents, k - 1, prev, ib0),
        anonymize_step(text, ents[entity_order(ents)[k - 1]], ops, default, prev.0, prev.2, salt) is Some,
    ensures
        ({
            let step = anonymize_step(
                text,
                ents[entity_order(ents)[k - 1]],
                ops,
                default,
                prev.0,
                prev.2,
                salt,
            ).unwrap();
            layout_holds(text, ents, k, (step.0, prev.1.push(step.1), step.2), is)
        }),
{
    let ord = entity_order(ents);
    let es = prev.2.unwrap();
    lemma_stable_order_perm(
        Seq::new(ents.len(), |i: int| (ents[i].start as u64, 0u64)),
        ents.len() as int,
    );
    let i0 = ord[k - 1];
    let e = ents[i0];
    let et = e.entity_type.0@;
    let orig = span_text(text, e);
    assert(chosen_operator(ops, et, default) is Vault);
    lemma_step_vault(text, e, ops, default, prev.0, es, salt);
    let tr = tokenize_core(es, salt, et, orig, Seq::empty()).unwrap();
    lemma_vault_step(es, salt, text, ents, i0);
    let step = anonymize_step(text, e, ops, default, prev.0, prev.2, salt).unwrap();
    let items = prev.1.push(step.1);
    assert(step.1 == (et, e.start, e.end, orig, tr.1));
    // the span lies in the head
    if k > 1 {
        assert(e.end <= ents[ord[k - 2]].start);
    }
    let w = trail(layout_repls(prev.1), layout_gaps(text, ents, k - 1));
    let is = lemma_splice_layout(text, ib0, w, e.start as int, e.end as int, tr.1);
    let gap = byte_range(text, e.end as int, byte_len(text.take(ib0)));
    // the new layouts
    let reps = layout_repls(items);
    let gaps = layout_gaps(text, ents, k);
    let origs = layout_origs(text, ents, k);
    assert(reps[0] == tr.1);
    assert(reps.drop_first() =~= layout_repls(prev.1));
    assert(gaps[0] == gap);
    assert(gaps.drop_first() =~= layout_gaps(text, ents, k - 1));
    assert(origs[0] == orig);
    assert(origs.drop_first() =~= layout_origs(text, ents, k - 1));
    assert(trail(reps, gaps) == reps[0] + gaps[0] + trail(reps.drop_first(), gaps.drop_first()));
    assert(trail(origs, gaps) == origs[0] + gaps[0] + trail(origs.drop_first(), gaps.drop_first()));
    assert(step.0 =~= text.take(is) + trail(reps, gaps));
    assert(text =~= text.take(is) + trail(origs, gaps));
    lemma_items_step(text, ents, prev.1, es, step.1, tr.0);
    is
}

/// The layout after the first `k` steps of an anonymization in which every
/// span is replaced by a vault token.
pub proof fn lemma_run_layout(
    text: Seq<char>,
    ents: Seq<RecognizerResult>,
    ops: Map<Seq<char>, Operator>,
    default: Operator,
    es0: Seq<EntryCore>,
    salt: Seq<char>,
    k: int,
) -> (ib: int)
    requires
        0 <= k <= ents.len(),
        forall|i: int|
            0 <= i < ents.len() ==> chosen_operator(ops, (#[trigger] ents[i]).entity_type.0@, default) is Vault,
        spans_apart(ents),
        vault_sound(es0),
        anonymize_run(text, ents, entity_order(ents), ops, default, Some(es0), salt, k) is Some,
    ensures
        layout_holds(
            text,
            ents,
            k,
            anonymize_run(text, ents, entity_order(ents), ops, default, Some(es0), salt, k).unwrap(),
            ib,
        ),
    decreases k,
{
    let ord = entity_order(ents);
    if k == 0 {
        let st = anonymize_run(text, ents, ord, ops, default, Some(es0), salt, 0).unwrap();
        assert(text.take(text.len() as int) =~= text);
        assert(trail(layout_repls(st.1), layout_gaps(text, ents, 0)) =~= Seq::<char>::empty());
        assert(trail(layout_origs(text, ents, 0), layout_gaps(text, ents, 0)) =~= Seq::<char>::empty());
        assert(text + Seq::<char>::empty() =~= text);
        text.len() as int
    } else {
        let ib0 = lemma_run_layout(text, ents, ops, default, es0, salt, k - 1);
        let prev = anonymize_run(text, ents, ord, ops, default, Some(es0), salt, k - 1).unwrap();
        lemma_run_step(text, ents, ops, default, salt, k, prev, ib0)
    }
}

// ---------------------------------------------------------------------------
// Bracketed tokens
// ---------------------------------------------------------------------------

/// `s` holds no `[`.
pub open spec fn no_open_bracket(s: Seq<char>) -> bool {
    forall|i: int| 0 <= i < s.len() ==> s[i] != '['
}

/// `s` holds neither `[` nor `]`.
pub open spec fn no_brackets(s: Seq<char>) -> bool {
    forall|i: int| 0 <= i < s.len() ==> s[i] != '[' && s[i] != ']'
}

/// `t` is `[`, then text without brackets, then `]`: the shape of the
/// vault's tokens.
pub open spec fn bracketed(t: Seq<char>) -> bool {
    &&& t.len() >= 2
    &&& t[0] == '['
    &&& t[t.len() - 1] == ']'
    &&& no_brackets(t.subrange(1, t.len() - 1))
}

proof fn lemma_hex_no_brackets(v: nat, n: nat)
    ensures
        no_brackets(hex_fixed(v, n)),
    decreases n,
{
    if n > 0 {
        lemma_hex_no_brackets(v / 16, (n - 1) as nat);
        let d = v % 16;
        let c = hex_char(d);
        assert(c != '[' && c != ']') by {
            if d < 10 {
                assert(c as u32 == 48 + d);
            } else {
                assert(c as u32 == 97 + d - 10);
            }
        }
        let h = hex_fixed(v / 16, (n - 1) as nat);
        assert(hex_fixed(v, n) == h.push(c));
        assert forall|i: int| 0 <= i < h.push(c).len() implies h.push(c)[i] != '[' && h.push(
            c,
        )[i] != ']' by {
            if i < h.len() {
                assert(h.push(c)[i] == h[i]);
            }
        }
    }
}

/// A token of a category whose uppercase form has no brackets is
/// bracketed.
pub proof fn lemma_token_text_bracketed(category: Seq<char>, input: Seq<char>)
    requires
        no_brackets(unicode_uppercase(category)),
    ensures
        bracketed(token_text(category, input)),
{
    let u = unicode_uppercase(category);
    let v = fnv1a(encode_utf8(input)) as nat;
    let h = hex_fixed(v, 8);
    lemma_hex_no_brackets(v, 8);
    let t = token_text(category, input);
    assert(t == seq!['['] + u + seq![':'] + h + seq![']']);
    let mid = u + seq![':'] + h;
    assert(t.subrange(1, t.len() - 1) =~= mid);
    assert forall|i: int| 0 <= i < mid.len() implies mid[i] != '[' && mid[i] != ']' by {
        if i < u.len() {
            assert(mid[i] == u[i]);
        } else if i == u.len() {
            assert(mid[i] == ':');
        } else {
            assert(mid[i] == h[i - u.len() - 1]);
        }
    }
}

/// Tokenizing keeps every token bracketed, when the category's uppercase
/// form has no brackets.
pub proof fn lemma_tokenize_keeps_bracketed(
    es: Seq<EntryCore>,
    salt: Seq<char>,
    category: Seq<char>,
    original: Seq<char>,
    context: Seq<char>,
)
    requires
        forall|k: int| 0 <= k < es.len() ==> bracketed((#[trigger] es[k]).0),
        no_brackets(unicode_uppercase(category)),
        tokenize_core(es, salt, category, original, context) is Some,
    ensures
        ({
            let r = tokenize_core(es, salt, category, original, context).unwrap();
            forall|k: int| 0 <= k < r.0.len() ==> bracketed((#[trigger] r.0[k]).0)
        }),
{
    let key = vault_key(category, original, context);
    lemma_find_key_bounds(es, key);
    let r = tokenize_core(es, salt, category, original, context).unwrap();
    match find_key(es, key) {
        Some(i) => {
            assert forall|k: int| 0 <= k < r.0.len() implies bracketed((#[trigger] r.0[k]).0) by {
                assert(r.0[k].0 == es[k].0);
            }
        },
        None => {
            let a = first_free_attempt(es, salt, category, original, context, 0).unwrap();
            lemma_token_text_bracketed(category, token_input(salt, category, original, context, a));
            assert forall|k: int| 0 <= k < r.0.len() implies bracketed((#[trigger] r.0[k]).0) by {
                if k < es.len() {
                    assert(r.0[k] == es[k]);
                }
            }
        },
    }
}

/// Every token that an anonymization leaves in the vault is bracketed, when
/// the vault's tokens were and the uppercase forms of the entity types have
/// no brackets.
pub proof fn lemma_run_keeps_bracketed(
    text: Seq<char>,
    ents: Seq<RecognizerResult>,
    ops: Map<Seq<char>, Operator>,
    default: Operator,
    es0: Seq<EntryCore>,
    salt: Seq<char>,
    k: int,
)
    requires
        0 <= k <= ents.len(),
        forall|i: int|
            0 <= i < ents.len() ==> chosen_operator(ops, (#[trigger] ents[i]).entity_type.0@, default) is Vault,
        forall|i: int|
            0 <= i < ents.len() ==> no_brackets(unicode_uppercase((#[trigger] ents[i]).entity_type.0@)),
        forall|j: int| 0 <= j < es0.len() ==> bracketed((#[trigger] es0[j]).0),
        anonymize_run(text, ents, entity_order(ents), ops, default, Some(es0), salt, k) is Some,
    ensures
        anonymize_run(text, ents, entity_order(ents), ops, default, Some(es0), salt, k).unwrap().2 matches Some(
            es,
        ) && forall|j: int| 0 <= j < es.len() ==> bracketed((#[trigger] es[j]).0),
    decreases k,
{
    let ord = entity_order(ents);
    if k > 0 {
        lemma_run_keeps_bracketed(text, ents, ops, default, es0, salt, k - 1);
        let prev = anonymize_run(text, ents, ord, ops, default, Some(es0), salt, k - 1).unwrap();
        let es = prev.2.unwrap();
        lemma_stable_order_perm(
            Seq::new(ents.len(), |i: int| (ents[i].start as u64, 0u64)),
            ents.len() as int,
        );
        let e = ents[ord[k - 1]];
        lemma_step_vault(text, e, ops, default, prev.0, es, salt);
        lemma_tokenize_keeps_bracketed(es, salt, e.entity_type.0@, span_text(text, e), Seq::empty());
    }
}

proof fn lemma_open_bracket_slot(head: Seq<char>, fills: Seq<Seq<char>>, gaps: Seq<Seq<char>>, p: int)
    requires
        fills.len() == gaps.len(),
        head.len() <= p < (head + trail(fills, gaps)).len(),
        (head + trail(fills, gaps))[p] == '[',
        forall|i: int| 0 <= i < gaps.len() ==> no_open_bracket(#[trigger] gaps[i]),
        forall|i: int|
            0 <= i < fills.len() ==> no_open_bracket(#[trigger] fills[i]) || bracketed(fills[i]),
    ensures
        exists|i: int|
            0 <= i < fills.len() && p == head.len() + slot_start(fills, gaps, i) && bracketed(
                fills[i],
            ),
    decreases fills.len(),
{
    let s = head + trail(fills, gaps);
    if fills.len() == 0 {
        assert(trail(fills, gaps) =~= Seq::<char>::empty());
        assert(s =~= head);
    } else {
        let f0 = fills[0];
        let g0 = gaps[0];
        let f2 = fills.drop_first();
        let g2 = gaps.drop_first();
        assert(trail(fills, gaps) == f0 + g0 + trail(f2, g2));
        let h2 = head + f0 + g0;
        assert(s =~= h2 + trail(f2, g2));
        if p < head.len() + f0.len() {
            let j = p - head.len();
            assert(s[p] == f0[j]);
            assert(bracketed(f0));
            if j > 0 {
                if j < f0.len() - 1 {
                    assert(f0.subrange(1, f0.len() - 1)[j - 1] == f0[j]);
                }
            }
            assert(slot_start(fills, gaps, 0) == 0);
        } else if p < h2.len() {
            assert(s[p] == g0[p - head.len() - f0.len()]);
        } else {
            assert forall|i: int| 0 <= i < g2.len() implies no_open_bracket(#[trigger] g2[i]) by {
                assert(g2[i] == gaps[i + 1]);
            }
            assert forall|i: int| 0 <= i < f2.len() implies no_open_bracket(#[trigger] f2[i])
                || bracketed(f2[i]) by {
                assert(f2[i] == fills[i + 1]);
            }
            lemma_open_bracket_slot(h2, f2, g2, p);
            let i = choose|i: int|
                0 <= i < f2.len() && p == h2.len() + slot_start(f2, g2, i) && bracketed(f2[i]);
            assert(slot_start(fills, gaps, i + 1) == f0.len() + g0.len() + slot_start(f2, g2, i));
            assert(fills[i + 1] == f2[i]);
        }
    }
}

proof fn lemma_slot_content(head: Seq<char>, fills: Seq<Seq<char>>, gaps: Seq<Seq<char>>, i: int)
    requires
        fills.len() == gaps.len(),
        0 <= i < fills.len(),
    ensures
        head.len() + slot_start(fills, gaps, i) + fills[i].len() <= (head + trail(
            fills,
            gaps,
        )).len(),
        (head + trail(fills, gaps)).subrange(
            head.len() + slot_start(fills, gaps, i),
            head.len() + slot_start(fills, gaps, i) + fills[i].len(),
        ) == fills[i],
    decreases i,
{
    let s = head + trail(fills, gaps);
    let f0 = fills[0];
    let g0 = gaps[0];
    let f2 = fills.drop_first();
    let g2 = gaps.drop_first();
    assert(trail(fills, gaps) == f0 + g0 + trail(f2, g2));
    let h2 = head + f0 + g0;
    assert(s =~= h2 + trail(f2, g2));
    if i == 0 {
        assert(s.subrange(head.len() as int, (head.len() + f0.len()) as int) =~= f0);
    } else {
        lemma_slot_content(h2, f2, g2, i - 1);
        assert(fills[i] == f2[i - 1]);
        assert(slot_start(fills, gaps, i) == f0.len() + g0.len() + slot_start(f2, g2, i - 1));
    }
}

/// In a text made of pieces without `[` and slots that are bracketed or
/// without `[`, a bracketed token occurs only as a whole slot that holds it.
pub proof fn lemma_bracketed_occurs_only_in_slots(
    head: Seq<char>,
    fills: Seq<Seq<char>>,
    gaps: Seq<Seq<char>>,
    t: Seq<char>,
)
    requires
        fills.len() == gaps.len(),
        no_open_bracket(head),
        forall|i: int| 0 <= i < gaps.len() ==> no_open_bracket(#[trigger] gaps[i]),
        forall|i: int|
            0 <= i < fills.len() ==> no_open_bracket(#[trigger] fills[i]) || bracketed(fills[i]),
        bracketed(t),
    ensures
        occurs_only_in_slots(head, fills, gaps, t),
{
    let s = head + trail(fills, gaps);
    assert forall|p: int| #[trigger] occurs_at(s, t, p) implies exists|i: int|
        0 <= i < fills.len() && p == head.len() + slot_start(fills, gaps, i) && fills[i] == t by {
        let n = t.len() as int;
        assert(s.subrange(p, p + n)[0] == s[p]);
        assert(s[p] == '[');
        if p < head.len() {
            assert(s[p] == head[p]);
        }
        lemma_open_bracket_slot(head, fills, gaps, p);
        let i = choose|i: int|
            0 <= i < fills.len() && p == head.len() + slot_start(fills, gaps, i) && bracketed(
                fills[i],
            );
        let f = fills[i];
        let m = f.len() as int;
        lemma_slot_content(head, fills, gaps, i);
        if n < m {
            assert(s.subrange(p, p + n)[n - 1] == s[p + n - 1]);
            assert(s.subrange(p, p + m)[n - 1] == s[p + n - 1]);
            assert(f.subrange(1, m - 1)[n - 2] == f[n - 1]);
        } else if n > m {
            assert(s.subrange(p, p + n)[m - 1] == s[p + m - 1]);
            assert(s.subrange(p, p + m)[m - 1] == s[p + m - 1]);
            assert(t.subrange(1, n - 1)[m - 2] == t[m - 1]);
        }
        assert(t =~= f);
    }
}

/// The pieces of a text without `[` hold no `[`.
pub proof fn lemma_pieces_no_open_bracket(head: Seq<char>, fills: Seq<Seq<char>>, gaps: Seq<Seq<char>>)
    requires
        fills.len() == gaps.len(),
        no_open_bracket(head + trail(fills, gaps)),
    ensures
        no_open_bracket(head),
        forall|i: int| 0 <= i < fills.len() ==> no_open_bracket(#[trigger] fills[i]),
        forall|i: int| 0 <= i < gaps.len() ==> no_open_bracket(#[trigger] gaps[i]),
    decreases fills.len(),
{
    let s = head + trail(fills, gaps);
    assert forall|j: int| 0 <= j < head.len() implies head[j] != '[' by {
        assert(s[j] == head[j]);
    }
    if fills.len() > 0 {
        let f0 = fills[0];
        let g0 = gaps[0];
        let f2 = fills.drop_first();
        let g2 = gaps.drop_first();
        assert(trail(fills, gaps) == f0 + g0 + trail(f2, g2));
        let h2 = head + f0 + g0;
        assert(s =~= h2 + trail(f2, g2));
        lemma_pieces_no_open_bracket(h2, f2, g2);
        assert forall|j: int| 0 <= j < f0.len() implies f0[j] != '[' by {
            assert(h2[head.len() + j] == f0[j]);
        }
        assert forall|j: int| 0 <= j < g0.len() implies g0[j] != '[' by {
            assert(h2[head.len() + f0.len() + j] == g0[j]);
        }
        assert forall|i: int| 0 <= i < fills.len() implies no_open_bracket(#[trigger] fills[i]) by {
            if i > 0 {
                assert(fills[i] == f2[i - 1]);
            }
        }
        assert forall|i: int| 0 <= i < gaps.len() implies no_open_bracket(#[trigger] gaps[i]) by {
            if i > 0 {
                assert(gaps[i] == g2[i - 1]);
            }
        }
    }
}

} // verus!
