//! The analyzer: runs every recognizer over a text and reconciles their
//! results.
//!
//! Results under the score threshold are dropped; the rest are ordered by
//! start (higher scores first among equal starts); a result whose range lies
//! within that of a result kept before it, with no higher score, is dropped,
//! and a kept result removes those it dominates in the same way; what
//! remains is ordered by start.
use vstd::prelude::*;

use crate::entity::{EntityType, RecognizerResult};
use crate::order::{stable_order, stable_order_desc};

verus! {

/// A detector of one or more entity types.
pub trait Recognizer {
    /// `out` is a report that the recognizer gives for `text` and the
    /// entity types `entities`. A recognizer that says nothing of its
    /// reports leaves every report possible.
    open spec fn reported(&self, text: Seq<char>, entities: Seq<EntityType>, out: Seq<RecognizerResult>) -> bool {
        true
    }

    /// The recognizer's name.
    fn name(&self) -> &str;

    /// The entity types that the recognizer detects.
    fn supported_entities(&self) -> &[EntityType];

    /// The detections in `text`; when `entities` is not empty, only of
    /// those entity types.
    fn analyze(&self, text: &str, entities: &[EntityType]) -> (res: Vec<RecognizerResult>)
        ensures
            self.reported(text@, entities@, res@),
    ;
}

/// The result of an analysis.
#[derive(Debug)]
pub struct AnalyzerResult {
    pub entities: Vec<RecognizerResult>,
}

/// The analyzer and its recognizers.
pub struct Analyzer {
    recognizers: Vec<Box<dyn Recognizer>>,
}

// ---------------------------------------------------------------------------
// The model
// ---------------------------------------------------------------------------

/// `a` dominates `b`: `a`'s range contains `b`'s and `a`'s score is at least `b`'s.
pub open spec fn dominates(a: RecognizerResult, b: RecognizerResult) -> bool {
    a.start <= b.start && a.end >= b.end && a.score >= b.score
}

/// Some result of `out` dominates `r`.
pub open spec fn dominated_in(out: Seq<RecognizerResult>, r: RecognizerResult) -> bool {
    exists|i: int| 0 <= i < out.len() && dominates(#[trigger] out[i], r)
}

/// `out` without the results that `r` dominates.
pub open spec fn without_dominated(out: Seq<RecognizerResult>, r: RecognizerResult) -> Seq<
    RecognizerResult,
>
    decreases out.len(),
{
    if out.len() == 0 {
        seq![]
    } else if dominates(r, out.last()) {
        without_dominated(out.drop_last(), r)
    } else {
        without_dominated(out.drop_last(), r).push(out.last())
    }
}

/// The results kept when `rs` is read in order: a result dominated by one
/// already kept is dropped; otherwise it is kept and the results it
/// dominates are dropped.
pub open spec fn keep_undominated(rs: Seq<RecognizerResult>) -> Seq<RecognizerResult>
    decreases rs.len(),
{
    if rs.len() == 0 {
        seq![]
    } else {
        let out = keep_undominated(rs.drop_last());
        if dominated_in(out, rs.last()) {
            out
        } else {
            without_dominated(out, rs.last()).push(rs.last())
        }
    }
}

/// The results of `rs` in the order `order` gives.
pub open spec fn permuted(rs: Seq<RecognizerResult>, order: Seq<int>) -> Seq<RecognizerResult> {
    Seq::new(order.len(), |j: int| rs[order[j]])
}

/// `rs` stably sorted by start.
pub open spec fn sorted_by_start(rs: Seq<RecognizerResult>) -> Seq<RecognizerResult> {
    permuted(
        rs,
        stable_order(
            Seq::new(rs.len(), |i: int| ((u64::MAX - rs[i].start) as u64, 0u64)),
            rs.len() as int,
        ),
    )
}

/// `rs` stably sorted by start, higher scores first among equal starts.
pub open spec fn sorted_by_start_then_score(rs: Seq<RecognizerResult>) -> Seq<RecognizerResult> {
    permuted(
        rs,
        stable_order(
            Seq::new(rs.len(), |i: int| ((u64::MAX - rs[i].start) as u64, rs[i].score)),
            rs.len() as int,
        ),
    )
}

/// The results of `rs` whose score is at least `threshold`, in order.
pub open spec fn at_least(rs: Seq<RecognizerResult>, threshold: u64) -> Seq<RecognizerResult>
    decreases rs.len(),
{
    if rs.len() == 0 {
        seq![]
    } else if rs.last().score >= threshold {
        at_least(rs.drop_last(), threshold).push(rs.last())
    } else {
        at_least(rs.drop_last(), threshold)
    }
}

/// Overlap resolution: undominated results, ordered by start.
pub open spec fn resolved(rs: Seq<RecognizerResult>) -> Seq<RecognizerResult> {
    sorted_by_start(keep_undominated(rs))
}

/// The reports of several recognizers, one after the other.
pub open spec fn concat_reports(outs: Seq<Seq<RecognizerResult>>) -> Seq<RecognizerResult>
    decreases outs.len(),
{
    if outs.len() == 0 {
        Seq::empty()
    } else {
        concat_reports(outs.drop_last()) + outs.last()
    }
}

/// The whole reconciliation of the recognizers' results.
pub open spec fn ranked(rs: Seq<RecognizerResult>, threshold: u64) -> Seq<RecognizerResult> {
    resolved(sorted_by_start_then_score(at_least(rs, threshold)))
}

// ---------------------------------------------------------------------------
// Implementation
// ---------------------------------------------------------------------------

/// A copy of a result.
pub fn copy_result(r: &RecognizerResult) -> (res: RecognizerResult)
    ensures
        res == *r,
{
    let name = match &r.recognizer_name {
        Some(n) => Some(n.clone()),
        None => None,
    };
    RecognizerResult {
        entity_type: EntityType(r.entity_type.0.clone()),
        start: r.start,
        end: r.end,
        score: r.score,
        recognizer_name: name,
    }
}

fn dominates_exec(a: &RecognizerResult, b: &RecognizerResult) -> (res: bool)
    ensures
        res == dominates(*a, *b),
{
    a.start <= b.start && a.end >= b.end && a.score >= b.score
}

/// The results in the order of `order`.
fn permute(rs: &Vec<RecognizerResult>, order: &Vec<usize>) -> (res: Vec<RecognizerResult>)
    requires
        forall|j: int| 0 <= j < order@.len() ==> order@[j] < rs@.len(),
    ensures
        res@ == permuted(rs@, order@.map_values(|i: usize| i as int)),
{
    let ghost ord = order@.map_values(|i: usize| i as int);
    let mut res: Vec<RecognizerResult> = Vec::new();
    let mut j: usize = 0;
    while j < order.len()
        invariant
            j <= order@.len(),
            ord == order@.map_values(|i: usize| i as int),
            forall|k: int| 0 <= k < order@.len() ==> order@[k] < rs@.len(),
            res@ == permuted(rs@, ord).take(j as int),
        decreases order@.len() - j,
    {
        res.push(copy_result(&rs[order[j]]));
        assert(res@ =~= permuted(rs@, ord).take(j + 1));
        j = j + 1;
    }
    assert(res@ =~= permuted(rs@, ord));
    res
}

/// The results stably sorted by start.
fn sort_by_start(rs: &Vec<RecognizerResult>) -> (res: Vec<RecognizerResult>)
    ensures
        res@ == sorted_by_start(rs@),
{
    let mut keys: Vec<(u64, u64)> = Vec::new();
    let mut i: usize = 0;
    while i < rs.len()
        invariant
            i <= rs@.len(),
            keys@ == Seq::new(i as nat, |k: int| ((u64::MAX - rs@[k].start) as u64, 0u64)),
        decreases rs@.len() - i,
    {
        keys.push((u64::MAX - rs[i].start as u64, 0));
        assert(keys@ =~= Seq::new((i + 1) as nat, |k: int| ((u64::MAX - rs@[k].start) as u64, 0u64)));
        i = i + 1;
    }
    let order = stable_order_desc(&keys);
    permute(rs, &order)
}

/// The results stably sorted by start, then by descending score.
fn sort_by_start_then_score(rs: &Vec<RecognizerResult>) -> (res: Vec<RecognizerResult>)
    ensures
        res@ == sorted_by_start_then_score(rs@),
{
    let mut keys: Vec<(u64, u64)> = Vec::new();
    let mut i: usize = 0;
    while i < rs.len()
        invariant
            i <= rs@.len(),
            keys@ == Seq::new(i as nat, |k: int| ((u64::MAX - rs@[k].start) as u64, rs@[k].score)),
        decreases rs@.len() - i,
    {
        keys.push((u64::MAX - rs[i].start as u64, rs[i].score));
        assert(keys@ =~= Seq::new(
            (i + 1) as nat,
            |k: int| ((u64::MAX - rs@[k].start) as u64, rs@[k].score),
        ));
        i = i + 1;
    }
    let order = stable_order_desc(&keys);
    permute(rs, &order)
}

impl Analyzer {
    /// An analyzer with the given recognizers.
    pub fn new(recognizers: Vec<Box<dyn Recognizer>>) -> (res: Self)
        ensures
            res.recognizers_spec() == recognizers@,
            res.recognizer_count_spec() == recognizers@.len(),
    {
        Analyzer { recognizers }
    }

    /// The recognizers, in order.
    pub closed spec fn recognizers_spec(&self) -> Seq<Box<dyn Recognizer>> {
        self.recognizers@
    }

    /// The number of recognizers.
    pub closed spec fn recognizer_count_spec(&self) -> nat {
        self.recognizers@.len()
    }

    /// The number of recognizers.
    pub fn recognizer_count(&self) -> (n: usize)
        ensures
            n == self.recognizer_count_spec(),
    {
        self.recognizers.len()
    }

    /// Resolves overlaps: keeps the undominated results (read in order) and
    /// orders them by start.
    pub fn resolve_overlaps(results: Vec<RecognizerResult>) -> (res: Vec<RecognizerResult>)
        ensures
            res@ == resolved(results@),
    {
        let mut output: Vec<RecognizerResult> = Vec::new();
        let mut i: usize = 0;
        while i < results.len()
            invariant
                i <= results@.len(),
                output@ == keep_undominated(results@.take(i as int)),
            decreases results@.len() - i,
        {
            let r = &results[i];
            assert(results@.take(i + 1).drop_last() == results@.take(i as int));
            assert(results@.take(i + 1).last() == *r);
            let mut dominated = false;
            let mut j: usize = 0;
            while j < output.len()
                invariant
                    j <= output@.len(),
                    dominated == (exists|k: int| 0 <= k < j && dominates(#[trigger] output@[k], *r)),
                decreases output@.len() - j,
            {
                if dominates_exec(&output[j], r) {
                    dominated = true;
                }
                j = j + 1;
            }
            if !dominated {
                let mut kept: Vec<RecognizerResult> = Vec::new();
                let mut j: usize = 0;
                while j < output.len()
                    invariant
                        j <= output@.len(),
                        kept@ == without_dominated(output@.take(j as int), *r),
                    decreases output@.len() - j,
                {
                    assert(output@.take(j + 1).drop_last() == output@.take(j as int));
                    if !dominates_exec(r, &output[j]) {
                        kept.push(copy_result(&output[j]));
                    }
                    j = j + 1;
                }
                assert(output@.take(output@.len() as int) == output@);
                kept.push(copy_result(r));
                output = kept;
            }
            i = i + 1;
        }
        assert(results@.take(results@.len() as int) == results@);
        sort_by_start(&output)
    }

    /// Drops the results under `score_threshold`, orders the rest by start
    /// (higher scores first among equal starts) and resolves overlaps.
    pub fn rank_results(results: Vec<RecognizerResult>, score_threshold: u64) -> (res: AnalyzerResult)
        ensures
            res.entities@ == ranked(results@, score_threshold),
    {
        let mut kept: Vec<RecognizerResult> = Vec::new();
        let mut i: usize = 0;
        while i < results.len()
            invariant
                i <= results@.len(),
                kept@ == at_least(results@.take(i as int), score_threshold),
            decreases results@.len() - i,
        {
            assert(results@.take(i + 1).drop_last() == results@.take(i as int));
            if results[i].score >= score_threshold {
                kept.push(copy_result(&results[i]));
            }
            i = i + 1;
        }
        assert(results@.take(results@.len() as int) == results@);
        let sorted = sort_by_start_then_score(&kept);
        AnalyzerResult { entities: Self::resolve_overlaps(sorted) }
    }

    /// Analyzes `text` with every recognizer (in order), each given `text`
    /// and `entities`, then keeps the results whose score is at least
    /// `score_threshold` and resolves overlaps. What each recognizer reports
    /// is its own: the result is the reconciliation of one report of each.
    pub fn analyze(&self, text: &str, entities: &[EntityType], score_threshold: u64) -> (res:
        AnalyzerResult)
        ensures
            exists|outs: Seq<Seq<RecognizerResult>>|
                {
                    &&& outs.len() == self.recognizers_spec().len()
                    &&& forall|i: int|
                        0 <= i < outs.len() ==> (#[trigger] self.recognizers_spec()[i]).reported(
                            text@,
                            entities@,
                            outs[i],
                        )
                    &&& res.entities@ == ranked(concat_reports(outs), score_threshold)
                },
    {
        let mut all: Vec<RecognizerResult> = Vec::new();
        let ghost mut outs: Seq<Seq<RecognizerResult>> = Seq::empty();
        let mut i: usize = 0;
        while i < self.recognizers.len()
            invariant
                i <= self.recognizers@.len(),
                outs.len() == i,
                forall|j: int|
                    0 <= j < i ==> (#[trigger] self.recognizers@[j]).reported(
                        text@,
                        entities@,
                        outs[j],
                    ),
                all@ == concat_reports(outs),
            decreases self.recognizers@.len() - i,
        {
            let ghost prev = outs;
            let mut found = self.recognizers[i].analyze(text, entities);
            let ghost f = found@;
            all.append(&mut found);
            proof {
                outs = prev.push(f);
                assert(outs.drop_last() =~= prev);
                assert(outs.last() == f);
                assert forall|j: int| 0 <= j < i + 1 implies (#[trigger] self.recognizers@[j]).reported(
                    text@,
                    entities@,
                    outs[j],
                ) by {
                    if j < i {
                        assert(outs[j] == prev[j]);
                    }
                }
            }
            i = i + 1;
        }
        let ghost a = all@;
        let res = Self::rank_results(all, score_threshold);
        assert(res.entities@ == ranked(a, score_threshold));
        res
    }
}

} // verus!
