//! Rank-based evaluation: the total order over scored instances, and the
//! reciprocal-rank, NDCG and average-precision metrics computed against a
//! grouped dataset plus optional external judgments.
//!
//! Scores and gains are order keys (see the crate root): comparing keys
//! compares the encoded real values, and a gain key above `GAIN_ZERO_KEY`
//! marks a relevant instance. Each metric's `score` returns the exact
//! discrete content of the measure — ranks, counts and gain vectors — from
//! which the caller forms the final real number.

use vstd::prelude::*;

use crate::GAIN_ZERO_KEY;
use crate::assoc::{spec_get, unique_keys};
use crate::is_relevant_key;
use crate::qrel::QuerySetJudgments;
use vstd::seq_lib::group_to_multiset_ensures;

verus! {

/// One scored instance of a single query's ranked list: its score and gain
/// as order keys, and its identifier.
#[derive(Clone, Copy, PartialEq, Eq, Structural, Debug)]
pub struct RankedInstance {
    pub score: u64,
    pub gain: u32,
    pub identifier: u32,
}

/// The natural order over scored instances: by score, descending; among
/// equal scores by gain, ascending — the deliberately pessimistic rule that
/// puts the less-relevant document first, so no metric is inflated by a
/// favorable tie — and finally by identifier, ascending. Total, since keys
/// encode non-NaN values only.
pub open spec fn ranked_le(a: RankedInstance, b: RankedInstance) -> bool {
    ||| a.score > b.score
    ||| (a.score == b.score && a.gain < b.gain)
    ||| (a.score == b.score && a.gain == b.gain && a.identifier <= b.identifier)
}

/// Whether a ranked list stands in the natural order.
pub open spec fn ranked_sorted(s: Seq<RankedInstance>) -> bool {
    forall|i: int, j: int| 0 <= i < j < s.len() ==> #[trigger] ranked_le(s[i], s[j])
}

impl RankedInstance {
    pub fn new(score: u64, gain: u32, identifier: u32) -> (r: RankedInstance)
        ensures
            r == (RankedInstance { score, gain, identifier }),
    {
        RankedInstance { score, gain, identifier }
    }

    /// Whether this instance counts as relevant: its gain is above zero.
    pub fn is_relevant(&self) -> (r: bool)
        ensures
            r == is_relevant_key(self.gain),
    {
        self.gain > GAIN_ZERO_KEY
    }

    /// The natural order as a three-way comparison: `Less` when `self`
    /// strictly precedes `other`.
    pub fn cmp(&self, other: &RankedInstance) -> (r: core::cmp::Ordering)
        ensures
            (r == core::cmp::Ordering::Less) == (ranked_le(*self, *other) && *self != *other),
            (r == core::cmp::Ordering::Equal) == (*self == *other),
            (r == core::cmp::Ordering::Greater) == (ranked_le(*other, *self) && *self != *other),
    {
        if self.score != other.score {
            if self.score > other.score {
                core::cmp::Ordering::Less
            } else {
                core::cmp::Ordering::Greater
            }
        } else if self.gain != other.gain {
            if self.gain < other.gain {
                core::cmp::Ordering::Less
            } else {
                core::cmp::Ordering::Greater
            }
        } else if self.identifier != other.identifier {
            if self.identifier < other.identifier {
                core::cmp::Ordering::Less
            } else {
                core::cmp::Ordering::Greater
            }
        } else {
            core::cmp::Ordering::Equal
        }
    }

    /// Whether `self` comes no later than `other` in the natural order.
    pub fn le(&self, other: &RankedInstance) -> (r: bool)
        ensures
            r == ranked_le(*self, *other),
    {
        if self.score != other.score {
            self.score > other.score
        } else if self.gain != other.gain {
            self.gain < other.gain
        } else {
            self.identifier <= other.identifier
        }
    }
}

/// Where a new instance belongs in an already-sorted list: the first
/// position whose element does not precede it.
fn insert_position(out: &Vec<RankedInstance>, item: &RankedInstance) -> (p: usize)
    requires
        ranked_sorted(out@),
    ensures
        p <= out@.len(),
        forall|l: int| 0 <= l < p ==> ranked_le(#[trigger] out@[l], *item),
        forall|l: int| p <= l < out@.len() ==> ranked_le(*item, #[trigger] out@[l]),
{
    let mut k: usize = 0;
    while k < out.len()
        invariant
            0 <= k <= out@.len(),
            ranked_sorted(out@),
            forall|l: int| 0 <= l < k ==> ranked_le(#[trigger] out@[l], *item),
        decreases out@.len() - k,
    {
        if item.le(&out[k]) {
            proof {
                assert forall|l: int| k <= l < out@.len() implies ranked_le(
                    *item,
                    #[trigger] out@[l],
                ) by {
                    if l > k {
                        assert(ranked_le(out@[k as int], out@[l]));
                    }
                }
            }
            return k;
        }
        k = k + 1;
    }
    out.len()
}

/// Sorts a query's scored instances into the natural order (score
/// descending, gain ascending on ties, identifier ascending last): the
/// ranked list every metric consumes. The result holds exactly the given
/// instances.
pub fn sort_ranked_list(list: &Vec<RankedInstance>) -> (r: Vec<RankedInstance>)
    ensures
        ranked_sorted(r@),
        r@.to_multiset() == list@.to_multiset(),
{
    broadcast use group_to_multiset_ensures;

    let mut out: Vec<RankedInstance> = Vec::new();
    let mut i: usize = 0;
    proof {
        assert(list@.take(0) =~= Seq::<RankedInstance>::empty());
        assert(out@ =~= Seq::<RankedInstance>::empty());
    }
    while i < list.len()
        invariant
            0 <= i <= list@.len(),
            ranked_sorted(out@),
            out@.to_multiset() == list@.take(i as int).to_multiset(),
        decreases list@.len() - i,
    {
        let item = list[i];
        let p = insert_position(&out, &item);
        let ghost old_out = out@;
        out.insert(p, item);
        proof {
            old_out.insert_ensures(p as int, item);
            assert(out@ == old_out.insert(p as int, item));
            vstd::seq_lib::to_multiset_insert(old_out, p as int, item);
            assert(list@.take(i as int + 1) =~= list@.take(i as int).push(item));
            vstd::seq_lib::to_multiset_build(list@.take(i as int), item);
            assert(out@.to_multiset() =~= list@.take(i as int + 1).to_multiset());
            assert forall|a: int, b: int| 0 <= a < b < out@.len() implies ranked_le(
                #[trigger] out@[a],
                #[trigger] out@[b],
            ) by {
                if b < p {
                    assert(out@[a] == old_out[a]);
                    assert(out@[b] == old_out[b]);
                    assert(ranked_le(old_out[a], old_out[b]));
                } else if a > p {
                    assert(out@[a] == old_out[a - 1]);
                    assert(out@[b] == old_out[b - 1]);
                    assert(ranked_le(old_out[a - 1], old_out[b - 1]));
                } else if a < p && b == p {
                    assert(out@[a] == old_out[a]);
                    assert(out@[b] == item);
                    assert(ranked_le(old_out[a], item));
                } else if a == p && b > p {
                    assert(out@[a] == item);
                    assert(out@[b] == old_out[b - 1]);
                    assert(ranked_le(item, old_out[b - 1]));
                } else {
                    assert(out@[a] == old_out[a]);
                    assert(out@[b] == old_out[b - 1]);
                    assert(ranked_le(old_out[a], old_out[b - 1]));
                }
            }
        }
        i = i + 1;
    }
    proof {
        assert(list@.take(list@.len() as int) =~= list@);
    }
    out
}

/// The natural order admits exactly one sorted arrangement of any multiset
/// of instances: two sorted lists with the same instances are equal, so
/// the ranked list every metric sees is fully determined by the scores,
/// gains and identifiers alone.
pub proof fn lemma_ranked_order_unique(x: Seq<RankedInstance>, y: Seq<RankedInstance>)
    requires
        ranked_sorted(x),
        ranked_sorted(y),
        x.to_multiset() == y.to_multiset(),
    ensures
        x == y,
{
    let leq = |a: RankedInstance, b: RankedInstance| ranked_le(a, b);
    assert(vstd::relations::total_ordering(leq));
    assert(vstd::relations::sorted_by(x, leq));
    assert(vstd::relations::sorted_by(y, leq));
    vstd::seq_lib::lemma_sorted_unique(x, y, leq);
}

/// The gain keys of a ranked list, in rank order.
pub open spec fn gains_of(ranked: Seq<RankedInstance>) -> Seq<u32> {
    ranked.map_values(|ri: RankedInstance| ri.gain)
}

/// Whether a gain-key sequence is in descending order.
pub open spec fn gains_sorted_desc(s: Seq<u32>) -> bool {
    forall|i: int, j: int| 0 <= i < j < s.len() ==> s[i] >= s[j]
}

/// Descending order on gain keys, as a relation value.
pub open spec fn u32_desc() -> spec_fn(u32, u32) -> bool {
    |a: u32, b: u32| a >= b
}

/// The descending sort of a gain-key sequence.
pub open spec fn sort_desc(s: Seq<u32>) -> Seq<u32> {
    s.sort_by(u32_desc())
}

/// What `sort_desc` promises.
pub proof fn lemma_sort_desc(s: Seq<u32>)
    ensures
        gains_sorted_desc(sort_desc(s)),
        sort_desc(s).to_multiset() == s.to_multiset(),
        sort_desc(s).len() == s.len(),
{
    assert(vstd::relations::total_ordering(u32_desc()));
    s.lemma_sort_by_ensures(u32_desc());
    broadcast use group_to_multiset_ensures;

    assert(sort_desc(s).to_multiset().len() == s.to_multiset().len());
    assert forall|i: int, j: int| 0 <= i < j < sort_desc(s).len() implies sort_desc(s)[i]
        >= sort_desc(s)[j] by {
        assert(u32_desc()(sort_desc(s)[i], sort_desc(s)[j]));
    }
}

/// A descending, element-preserving rearrangement is the descending sort.
pub proof fn lemma_is_sort_desc(s: Seq<u32>, t: Seq<u32>)
    requires
        gains_sorted_desc(t),
        t.to_multiset() == s.to_multiset(),
    ensures
        t == sort_desc(s),
{
    lemma_sort_desc(s);
    assert(vstd::relations::sorted_by(t, u32_desc()));
    assert(vstd::relations::sorted_by(sort_desc(s), u32_desc()));
    assert(vstd::relations::total_ordering(u32_desc()));
    vstd::seq_lib::lemma_sorted_unique(t, sort_desc(s), u32_desc());
}

/// Sorts gain keys into descending order.
fn sort_gains_desc(v: &Vec<u32>) -> (r: Vec<u32>)
    ensures
        r@ == sort_desc(v@),
{
    broadcast use group_to_multiset_ensures;

    let mut out: Vec<u32> = Vec::new();
    let mut i: usize = 0;
    proof {
        assert(v@.take(0) =~= Seq::<u32>::empty());
        assert(out@ =~= Seq::<u32>::empty());
    }
    while i < v.len()
        invariant
            0 <= i <= v@.len(),
            gains_sorted_desc(out@),
            out@.to_multiset() == v@.take(i as int).to_multiset(),
        decreases v@.len() - i,
    {
        let item = v[i];
        let mut p: usize = 0;
        let mut found: bool = false;
        while p < out.len() && !found
            invariant
                0 <= p <= out@.len(),
                forall|l: int| 0 <= l < p ==> out@[l] >= item,
                found ==> p < out@.len() && item >= out@[p as int],
                !found ==> forall|l: int| 0 <= l < p ==> out@[l] >= item,
            decreases out@.len() - p + (if found {
                0int
            } else {
                1int
            }),
        {
            if item >= out[p] {
                found = true;
            } else {
                p = p + 1;
            }
        }
        let ghost old_out = out@;
        out.insert(p, item);
        proof {
            old_out.insert_ensures(p as int, item);
            assert(out@ == old_out.insert(p as int, item));
            vstd::seq_lib::to_multiset_insert(old_out, p as int, item);
            assert(v@.take(i as int + 1) =~= v@.take(i as int).push(item));
            vstd::seq_lib::to_multiset_build(v@.take(i as int), item);
            assert(out@.to_multiset() =~= v@.take(i as int + 1).to_multiset());
            assert forall|a: int, b: int| 0 <= a < b < out@.len() implies out@[a] >= out@[b] by {
                if b < p {
                    assert(out@[a] == old_out[a] && out@[b] == old_out[b]);
                } else if a > p {
                    assert(out@[a] == old_out[a - 1] && out@[b] == old_out[b - 1]);
                } else if a < p && b == p {
                    assert(out@[a] == old_out[a] && out@[b] == item);
                } else if a == p && b > p {
                    assert(out@[a] == item && out@[b] == old_out[b - 1]);
                    assert(old_out[b - 1] <= item);
                } else {
                    assert(out@[a] == old_out[a] && out@[b] == old_out[b - 1]);
                }
            }
        }
        i = i + 1;
    }
    proof {
        assert(v@.take(v@.len() as int) =~= v@);
        lemma_is_sort_desc(v@, out@);
    }
    out
}

/// Collects the relevant (positive) gain keys of a ranked list, in rank
/// order.
fn collect_positive(ranked: &Vec<RankedInstance>) -> (r: Vec<u32>)
    ensures
        r@ == crate::positive_gains(gains_of(ranked@)),
{
    let mut out: Vec<u32> = Vec::new();
    let mut i: usize = 0;
    proof {
        assert(gains_of(ranked@.take(0)) =~= Seq::<u32>::empty());
        assert(out@ =~= crate::positive_gains(gains_of(ranked@.take(0))));
    }
    while i < ranked.len()
        invariant
            0 <= i <= ranked@.len(),
            out@ == crate::positive_gains(gains_of(ranked@.take(i as int))),
        decreases ranked@.len() - i,
    {
        proof {
            assert(gains_of(ranked@.take(i as int + 1)).drop_last() =~= gains_of(
                ranked@.take(i as int),
            ));
            assert(gains_of(ranked@.take(i as int + 1)).last() == ranked@[i as int].gain);
        }
        if ranked[i].gain > GAIN_ZERO_KEY {
            out.push(ranked[i].gain);
        }
        i = i + 1;
    }
    proof {
        assert(ranked@.take(ranked@.len() as int) =~= ranked@);
    }
    out
}

/// Collects the relevant (positive) gain keys of a gain vector, in order.
fn collect_positive_gains(gains: &Vec<u32>) -> (r: Vec<u32>)
    ensures
        r@ == crate::positive_gains(gains@),
{
    let mut out: Vec<u32> = Vec::new();
    let mut i: usize = 0;
    proof {
        assert(gains@.take(0) =~= Seq::<u32>::empty());
        assert(out@ =~= crate::positive_gains(gains@.take(0)));
    }
    while i < gains.len()
        invariant
            0 <= i <= gains@.len(),
            out@ == crate::positive_gains(gains@.take(i as int)),
        decreases gains@.len() - i,
    {
        proof {
            assert(gains@.take(i as int + 1).drop_last() =~= gains@.take(i as int));
            assert(gains@.take(i as int + 1).last() == gains@[i as int]);
        }
        if gains[i] > GAIN_ZERO_KEY {
            out.push(gains[i]);
        }
        i = i + 1;
    }
    proof {
        assert(gains@.take(gains@.len() as int) =~= gains@);
    }
    out
}

/// Counts the relevant (positive) gain keys.
fn count_relevant(gains: &Vec<u32>) -> (r: usize)
    ensures
        r == crate::relevant_count(gains@),
        r <= gains@.len(),
{
    let mut count: usize = 0;
    let mut i: usize = 0;
    proof {
        assert(gains@.take(0) =~= Seq::<u32>::empty());
    }
    while i < gains.len()
        invariant
            0 <= i <= gains@.len(),
            count == crate::relevant_count(gains@.take(i as int)),
            count <= i,
        decreases gains@.len() - i,
    {
        proof {
            assert(gains@.take(i as int + 1).drop_last() =~= gains@.take(i as int));
            assert(gains@.take(i as int + 1).last() == gains@[i as int]);
        }
        if gains[i] > GAIN_ZERO_KEY {
            count = count + 1;
        }
        i = i + 1;
    }
    proof {
        assert(gains@.take(gains@.len() as int) =~= gains@);
    }
    count
}

/// The 1-based rank of the first relevant instance of a ranked list.
pub open spec fn first_relevant(ranked: Seq<RankedInstance>) -> Option<int>
    decreases ranked.len(),
{
    if ranked.len() == 0 {
        None
    } else if is_relevant_key(ranked[0].gain) {
        Some(1)
    } else {
        match first_relevant(ranked.drop_first()) {
            Some(k) => Some(k + 1),
            None => None,
        }
    }
}

/// What `first_relevant` promises: the first relevant rank, and absence
/// exactly when nothing is relevant.
pub proof fn lemma_first_relevant(ranked: Seq<RankedInstance>)
    ensures
        match first_relevant(ranked) {
            Some(k) => 1 <= k <= ranked.len() && is_relevant_key(ranked[k - 1].gain) && forall|
                l: int,
            |
                0 <= l < k - 1 ==> !is_relevant_key((#[trigger] ranked[l]).gain),
            None => forall|l: int|
                0 <= l < ranked.len() ==> !is_relevant_key((#[trigger] ranked[l]).gain),
        },
    decreases ranked.len(),
{
    if ranked.len() > 0 && !is_relevant_key(ranked[0].gain) {
        let t = ranked.drop_first();
        lemma_first_relevant(t);
        match first_relevant(t) {
            Some(k) => {
                assert(ranked[k] == t[k - 1]);
                assert forall|l: int| 0 <= l < k implies !is_relevant_key(
                    (#[trigger] ranked[l]).gain,
                ) by {
                    if l > 0 {
                        assert(t[l - 1] == ranked[l]);
                    }
                }
            },
            None => {
                assert forall|l: int| 0 <= l < ranked.len() implies !is_relevant_key(
                    (#[trigger] ranked[l]).gain,
                ) by {
                    if l > 0 {
                        assert(t[l - 1] == ranked[l]);
                    }
                }
            },
        }
    }
}

/// The 1-based ranks of the relevant instances of a ranked list, ascending.
pub open spec fn relevant_ranks(ranked: Seq<RankedInstance>) -> Seq<int>
    decreases ranked.len(),
{
    if ranked.len() == 0 {
        Seq::empty()
    } else {
        let p = relevant_ranks(ranked.drop_last());
        if is_relevant_key(ranked.last().gain) {
            p.push(ranked.len() as int)
        } else {
            p
        }
    }
}

/// Reciprocal rank: the reciprocal of the 1-based rank of the first
/// relevant instance, or zero when none is relevant.
pub struct ReciprocalRank;

impl ReciprocalRank {
    pub fn name(&self) -> (r: String)
        ensures
            r@ == "RR"@,
    {
        "RR".to_owned()
    }

    /// The rank whose reciprocal is the score: `Some(k)` means the first
    /// relevant instance stands at 1-based rank `k` and the metric is
    /// `1 / k`; `None` means no instance is relevant and the metric is zero.
    pub fn score(&self, _qid: &str, ranked_list: &Vec<RankedInstance>) -> (r: Option<usize>)
        ensures
            match r {
                Some(k) => first_relevant(ranked_list@) == Some(k as int),
                None => first_relevant(ranked_list@) is None,
            },
    {
        proof {
            lemma_first_relevant(ranked_list@);
        }
        let mut i: usize = 0;
        while i < ranked_list.len()
            invariant
                0 <= i <= ranked_list@.len(),
                forall|l: int|
                    0 <= l < i ==> !is_relevant_key((#[trigger] ranked_list@[l]).gain),
                match first_relevant(ranked_list@) {
                    Some(k) => 1 <= k <= ranked_list@.len() && is_relevant_key(
                        ranked_list@[k - 1].gain,
                    ) && forall|l: int|
                        0 <= l < k - 1 ==> !is_relevant_key((#[trigger] ranked_list@[l]).gain),
                    None => forall|l: int|
                        0 <= l < ranked_list@.len() ==> !is_relevant_key(
                            (#[trigger] ranked_list@[l]).gain,
                        ),
                },
            decreases ranked_list@.len() - i,
        {
            if ranked_list[i].gain > GAIN_ZERO_KEY {
                proof {
                    match first_relevant(ranked_list@) {
                        Some(k) => {
                            if k - 1 < i {
                                assert(!is_relevant_key(ranked_list@[k - 1].gain));
                            }
                            if k - 1 > i {
                                assert(!is_relevant_key(ranked_list@[i as int].gain));
                            }
                        },
                        None => {
                            assert(!is_relevant_key(ranked_list@[i as int].gain));
                        },
                    }
                }
                return Some(i + 1);
            }
            i = i + 1;
        }
        None
    }
}

/// One query of a grouped dataset, as the evaluator constructors consume
/// it: its canonical query-id string and the gain keys of its instances, in
/// ascending original-instance order.
pub struct QueryGroup {
    pub qid: String,
    pub gains: Vec<u32>,
}

/// The judged gain keys an evaluator uses for a query, or the query's own
/// positive-gain rows when it is not judged: the documented fallback that
/// underestimates when judgments are incomplete. A judged query keeps its
/// full judged vector even when every judged gain is zero: its ideal vector
/// is then nonempty with a zero discounted sum, unlike the fallback, which
/// keeps positive gains only.
pub open spec fn ideal_source(g: QueryGroup, judgments: Option<QuerySetJudgments>) -> Seq<u32> {
    match judgments {
        Some(js) => match spec_get(js.entries(), g.qid@) {
            Some(qj) => qj.gain_seq(),
            None => crate::positive_gains(g.gains@),
        },
        None => crate::positive_gains(g.gains@),
    }
}

/// The ideal gain vector of a query: its source gains, sorted descending.
/// Empty exactly when the query has no normalizer.
pub open spec fn ideal_of(g: QueryGroup, judgments: Option<QuerySetJudgments>) -> Seq<u32> {
    sort_desc(ideal_source(g, judgments))
}

/// The relevant-document count an evaluator uses for a query: the judged
/// count when the query is judged, else the count of positive-gain rows.
pub open spec fn spec_num_relevant(g: QueryGroup, judgments: Option<QuerySetJudgments>) -> nat {
    match judgments {
        Some(js) => match spec_get(js.entries(), g.qid@) {
            Some(qj) => crate::relevant_count(qj.gain_seq()),
            None => crate::relevant_count(g.gains@),
        },
        None => crate::relevant_count(g.gains@),
    }
}

/// Normalized discounted cumulative gain at a fixed depth. The ideal gain
/// vector of every query is computed once at construction and cached; a
/// query never seen at construction gets an ad-hoc normalizer from the
/// ranked list itself.
pub struct NDCG {
    depth: usize,
    ideal_gains: Vec<(String, Vec<u32>)>,
}

/// What an NDCG score is made of: the positive gains of the ranked list in
/// rank order (the numerator's gain vector) and the ideal descending gain
/// vector (the denominator's). The metric is
/// `dcg(actual_gains, depth) / dcg(ideal_gains, depth)` with
/// `dcg(v, k) = sum over i < min(k, len) of (2^v[i] - 1) / log2(i + 2)`
/// over the decoded gains; equal vectors make the quotient exactly one.
pub struct NdcgParts {
    pub actual_gains: Vec<u32>,
    pub ideal_gains: Vec<u32>,
}

/// What `NDCG::score` returns, over the cache view: `None` means the query
/// has no normalizer and the score is zero by definition.
pub open spec fn spec_ndcg_score(
    cache: Seq<(String, Vec<u32>)>,
    qid: Seq<char>,
    ranked: Seq<RankedInstance>,
) -> Option<(Seq<u32>, Seq<u32>)> {
    let actual = crate::positive_gains(gains_of(ranked));
    match spec_get(cache, qid) {
        Some(iv) => {
            if iv@.len() == 0 {
                None
            } else {
                Some((actual, iv@))
            }
        },
        None => {
            if actual.len() == 0 {
                None
            } else {
                Some((actual, sort_desc(actual)))
            }
        },
    }
}

impl NDCG {
    /// The cached (query id, ideal gain vector) entries.
    pub closed spec fn cache(&self) -> Seq<(String, Vec<u32>)> {
        self.ideal_gains@
    }

    pub closed spec fn spec_depth(&self) -> int {
        self.depth as int
    }

    pub closed spec fn wf(&self) -> bool {
        unique_keys(self.cache())
    }

    /// The cached (query id, ideal descending gain vector) entries, in
    /// group order: what callers fold into per-query normalizers once,
    /// ahead of scoring.
    pub fn ideal_gain_vectors(&self) -> (r: &Vec<(String, Vec<u32>)>)
        ensures
            r@ == self.cache(),
    {
        &self.ideal_gains
    }

    /// The evaluation depth this evaluator was built with.
    pub fn depth(&self) -> (r: usize)
        ensures
            r == self.spec_depth(),
    {
        self.depth
    }

    pub fn name(&self) -> (r: String)
        ensures
            r@ == "NDCG"@,
    {
        "NDCG".to_owned()
    }

    /// Builds the evaluator: one cached ideal gain vector per query of the
    /// grouped dataset, from the external judgments where the query is
    /// judged, else from its own positive-gain rows, sorted descending.
    pub fn new(depth: usize, groups: &Vec<QueryGroup>, judgments: Option<&QuerySetJudgments>) -> (r:
        NDCG)
        requires
            forall|a: int, b: int|
                0 <= a < b < groups@.len() ==> (#[trigger] groups@[a].qid@) != (
                #[trigger] groups@[b].qid@),
            judgments matches Some(js) ==> js.wf(),
        ensures
            r.wf(),
            r.spec_depth() == depth,
            r.cache().len() == groups@.len(),
            forall|i: int|
                0 <= i < groups@.len() ==> (#[trigger] r.cache()[i].0@) == groups@[i].qid@
                    && r.cache()[i].1@ == ideal_of(
                    groups@[i],
                    match judgments {
                        Some(js) => Some(*js),
                        None => None,
                    },
                ),
    {
        let ghost jval: Option<QuerySetJudgments> = match judgments {
            Some(js) => Some(*js),
            None => None,
        };
        let mut cache: Vec<(String, Vec<u32>)> = Vec::new();
        let mut i: usize = 0;
        while i < groups.len()
            invariant
                0 <= i <= groups@.len(),
                forall|a: int, b: int|
                    0 <= a < b < groups@.len() ==> (#[trigger] groups@[a].qid@) != (
                    #[trigger] groups@[b].qid@),
                judgments matches Some(js) ==> js.wf(),
                jval == match judgments {
                    Some(js) => Some(*js),
                    None => None::<QuerySetJudgments>,
                },
                cache@.len() == i,
                forall|l: int|
                    0 <= l < i ==> (#[trigger] cache@[l].0@) == groups@[l].qid@ && cache@[l].1@
                        == ideal_of(groups@[l], jval),
            decreases groups@.len() - i,
        {
            let source: Vec<u32> = match judgments {
                Some(js) => {
                    match js.get(groups[i].qid.as_str()) {
                        Some(qj) => qj.gain_vector(),
                        None => collect_positive_gains(&groups[i].gains),
                    }
                },
                None => collect_positive_gains(&groups[i].gains),
            };
            proof {
                assert(source@ == ideal_source(groups@[i as int], jval));
            }
            let ideal = sort_gains_desc(&source);
            proof {
                assert(ideal@ == ideal_of(groups@[i as int], jval));
            }
            let ghost old_cache = cache@;
            cache.push((groups[i].qid.clone(), ideal));
            proof {
                assert(cache@[i as int].0@ == groups@[i as int].qid@);
                assert(cache@[i as int].1@ == ideal_of(groups@[i as int], jval));
                assert forall|l: int| 0 <= l < i implies (#[trigger] cache@[l].0@) == groups@[
                    l
                ].qid@ && cache@[l].1@ == ideal_of(groups@[l], jval) by {
                    assert(cache@[l] == old_cache[l]);
                }
            }
            i = i + 1;
        }
        proof {
            assert forall|a: int, b: int| 0 <= a < b < cache@.len() implies (
            #[trigger] cache@[a].0@) != (#[trigger] cache@[b].0@) by {
                assert(cache@[a].0@ == groups@[a].qid@);
                assert(cache@[b].0@ == groups@[b].qid@);
            }
        }
        NDCG { depth, ideal_gains: cache }
    }

    /// The gain vectors whose discounted sums form the query's score:
    /// absent exactly when the query has no normalizer, in which case the
    /// score is zero by definition (never a division by zero).
    pub fn score(&self, qid: &str, ranked_list: &Vec<RankedInstance>) -> (r: Option<NdcgParts>)
        requires
            self.wf(),
        ensures
            match r {
                Some(parts) => spec_ndcg_score(self.cache(), qid@, ranked_list@) == Some(
                    (parts.actual_gains@, parts.ideal_gains@),
                ),
                None => spec_ndcg_score(self.cache(), qid@, ranked_list@) is None,
            },
    {
        let actual = collect_positive(ranked_list);
        let sought = qid.to_owned();
        proof {
            crate::assoc::lemma_find(self.cache(), qid@);
        }
        match crate::assoc::find(&self.ideal_gains, &sought) {
            Some(j) => {
                let iv = &self.ideal_gains[j].1;
                if iv.len() == 0 {
                    None
                } else {
                    Some(NdcgParts { actual_gains: actual, ideal_gains: iv.clone() })
                }
            },
            None => {
                if actual.len() == 0 {
                    None
                } else {
                    let ideal = sort_gains_desc(&actual);
                    Some(NdcgParts { actual_gains: actual, ideal_gains: ideal })
                }
            },
        }
    }
}

/// Average precision: precision accumulated at every relevant rank,
/// divided by the query's relevant-document count. The count of every
/// query of the grouped dataset is computed once at construction and
/// cached — zero counts included, so a query judged with no relevant
/// documents is scored zero rather than recounted from its ranked list.
pub struct AveragePrecision {
    query_norms: Vec<(String, u32)>,
}

/// What an AP score is made of: the query's relevant-document count and
/// the 1-based ranks of the relevant instances, in ascending order. The
/// metric is `(sum over j of (j + 1) / relevant_ranks[j]) / num_relevant`,
/// and zero when `num_relevant` is zero.
pub struct ApScore {
    pub num_relevant: u32,
    pub relevant_ranks: Vec<usize>,
}

impl AveragePrecision {
    /// The cached (query id, relevant-count) entries, one per query of the
    /// grouped dataset, in group order.
    pub closed spec fn norms(&self) -> Seq<(String, u32)> {
        self.query_norms@
    }

    pub closed spec fn wf(&self) -> bool {
        unique_keys(self.norms())
    }

    pub fn name(&self) -> (r: String)
        ensures
            r@ == "AP"@,
    {
        "AP".to_owned()
    }

    /// Builds the evaluator: one cached relevant-document count per query,
    /// from the external judgments where the query is judged — the judged
    /// count decides even when it is zero — else from the query's own
    /// positive-gain rows.
    pub fn new(groups: &Vec<QueryGroup>, judgments: Option<&QuerySetJudgments>) -> (r:
        AveragePrecision)
        requires
            forall|a: int, b: int|
                0 <= a < b < groups@.len() ==> (#[trigger] groups@[a].qid@) != (
                #[trigger] groups@[b].qid@),
            forall|l: int| 0 <= l < groups@.len() ==> (#[trigger] groups@[l].gains@).len()
                <= u32::MAX,
            judgments matches Some(js) ==> js.wf(),
        ensures
            r.wf(),
            r.norms().len() == groups@.len(),
            forall|i: int|
                0 <= i < groups@.len() ==> (#[trigger] r.norms()[i]).0@ == groups@[i].qid@,
            forall|i: int|
                0 <= i < groups@.len() ==> (#[trigger] r.norms()[i]).1 == spec_num_relevant(
                    groups@[i],
                    match judgments {
                        Some(js) => Some(*js),
                        None => None,
                    },
                ),
    {
        let ghost jval: Option<QuerySetJudgments> = match judgments {
            Some(js) => Some(*js),
            None => None,
        };
        let mut norms: Vec<(String, u32)> = Vec::new();
        let mut i: usize = 0;
        while i < groups.len()
            invariant
                0 <= i <= groups@.len(),
                forall|a: int, b: int|
                    0 <= a < b < groups@.len() ==> (#[trigger] groups@[a].qid@) != (
                    #[trigger] groups@[b].qid@),
                forall|l: int| 0 <= l < groups@.len() ==> (#[trigger] groups@[l].gains@).len()
                    <= u32::MAX,
                judgments matches Some(js) ==> js.wf(),
                jval == match judgments {
                    Some(js) => Some(*js),
                    None => None::<QuerySetJudgments>,
                },
                norms@.len() == i,
                forall|l: int| 0 <= l < i ==> (#[trigger] norms@[l]).0@ == groups@[l].qid@,
                forall|l: int|
                    0 <= l < i ==> (#[trigger] norms@[l]).1 == spec_num_relevant(
                        groups@[l],
                        jval,
                    ),
            decreases groups@.len() - i,
        {
            let nr: usize = match judgments {
                Some(js) => {
                    match js.get(groups[i].qid.as_str()) {
                        Some(qj) => qj.num_relevant() as usize,
                        None => count_relevant(&groups[i].gains),
                    }
                },
                None => count_relevant(&groups[i].gains),
            };
            proof {
                assert(nr == spec_num_relevant(groups@[i as int], jval));
            }
            let ghost old_norms = norms@;
            norms.push((groups[i].qid.clone(), nr as u32));
            proof {
                assert forall|l: int|
                    0 <= l < i + 1 implies (#[trigger] norms@[l]).0@ == groups@[l].qid@ by {
                    if l == i {
                        assert(norms@[l].0 == groups@[l].qid);
                    } else {
                        assert(norms@[l] == old_norms[l]);
                    }
                }
                assert forall|l: int|
                    0 <= l < i + 1 implies (#[trigger] norms@[l]).1 == spec_num_relevant(
                        groups@[l],
                        jval,
                    ) by {
                    if l == i {
                        assert(norms@[l].1 == nr as u32);
                    } else {
                        assert(norms@[l] == old_norms[l]);
                    }
                }
            }
            i = i + 1;
        }
        proof {
            assert forall|a: int, b: int| 0 <= a < b < norms@.len() implies (
            #[trigger] norms@[a].0@) != (#[trigger] norms@[b].0@) by {
                assert(norms@[a].0@ == groups@[a].qid@);
                assert(norms@[b].0@ == groups@[b].qid@);
            }
        }
        AveragePrecision { query_norms: norms }
    }

    /// The pieces of the query's score: the relevant-document count (zero
    /// means the score is zero) and the 1-based ranks of the relevant
    /// instances of the ranked list, in ascending order.
    pub fn score(&self, qid: &str, ranked_list: &Vec<RankedInstance>) -> (r: ApScore)
        requires
            self.wf(),
            ranked_list@.len() <= u32::MAX,
        ensures
            r.num_relevant == (match spec_get(self.norms(), qid@) {
                Some(n) => n as nat,
                None => crate::relevant_count(gains_of(ranked_list@)),
            }),
            r.relevant_ranks@.map_values(|x: usize| x as int) == relevant_ranks(ranked_list@),
    {
        let sought = qid.to_owned();
        proof {
            crate::assoc::lemma_find(self.norms(), qid@);
        }
        let num_relevant: u32 = match crate::assoc::find(&self.query_norms, &sought) {
            Some(j) => self.query_norms[j].1,
            None => {
                let mut count: usize = 0;
                let mut i: usize = 0;
                proof {
                    assert(gains_of(ranked_list@.take(0)) =~= Seq::<u32>::empty());
                }
                while i < ranked_list.len()
                    invariant
                        0 <= i <= ranked_list@.len() <= u32::MAX,
                        count == crate::relevant_count(gains_of(ranked_list@.take(i as int))),
                        count <= i,
                    decreases ranked_list@.len() - i,
                {
                    proof {
                        assert(gains_of(ranked_list@.take(i as int + 1)).drop_last() =~= gains_of(
                            ranked_list@.take(i as int),
                        ));
                        assert(gains_of(ranked_list@.take(i as int + 1)).last() == ranked_list@[
                            i as int
                        ].gain);
                    }
                    if ranked_list[i].gain > GAIN_ZERO_KEY {
                        count = count + 1;
                    }
                    i = i + 1;
                }
                proof {
                    assert(ranked_list@.take(ranked_list@.len() as int) =~= ranked_list@);
                }
                count as u32
            },
        };
        let mut ranks: Vec<usize> = Vec::new();
        let mut i: usize = 0;
        proof {
            assert(ranks@.map_values(|x: usize| x as int) =~= relevant_ranks(
                ranked_list@.take(0),
            ));
        }
        while i < ranked_list.len()
            invariant
                0 <= i <= ranked_list@.len(),
                ranks@.map_values(|x: usize| x as int) == relevant_ranks(
                    ranked_list@.take(i as int),
                ),
            decreases ranked_list@.len() - i,
        {
            proof {
                assert(ranked_list@.take(i as int + 1).drop_last() =~= ranked_list@.take(i as int));
                assert(ranked_list@.take(i as int + 1).last() == ranked_list@[i as int]);
            }
            let ghost old_ranks = ranks@;
            if ranked_list[i].gain > GAIN_ZERO_KEY {
                ranks.push(i + 1);
            }
            proof {
                if is_relevant_key(ranked_list@[i as int].gain) {
                    assert(ranks@.map_values(|x: usize| x as int) =~= old_ranks.map_values(
                        |x: usize| x as int,
                    ).push(i + 1));
                }
            }
            i = i + 1;
        }
        proof {
            assert(ranked_list@.take(ranked_list@.len() as int) =~= ranked_list@);
        }
        ApScore { num_relevant, relevant_ranks: ranks }
    }
}

/// A ranked list whose positive gains already equal the query's cached,
/// nonempty ideal vector is scored with equal numerator and denominator
/// gain vectors: the discounted sums coincide term by term, and the
/// normalized score is exactly one.
pub proof fn lemma_ndcg_exact_match(
    cache: Seq<(String, Vec<u32>)>,
    qid: Seq<char>,
    ranked: Seq<RankedInstance>,
)
    requires
        spec_get(cache, qid) matches Some(iv) && iv@ == crate::positive_gains(gains_of(ranked))
            && iv@.len() > 0,
    ensures
        spec_ndcg_score(cache, qid, ranked) matches Some(p) && p.0 == p.1,
{
}

/// A query with no positive-gain rows and no external judgments has an
/// empty ideal vector: it is cached with no normalizer, and any ranked list
/// for it is scored as absent — zero by definition, never a division by
/// zero.
pub proof fn lemma_ndcg_zero_gain_query(
    g: QueryGroup,
    cache: Seq<(String, Vec<u32>)>,
    ranked: Seq<RankedInstance>,
)
    requires
        crate::relevant_count(g.gains@) == 0,
        spec_get(cache, g.qid@) matches Some(iv) && iv@ == ideal_of(g, None),
    ensures
        ideal_of(g, None).len() == 0,
        spec_ndcg_score(cache, g.qid@, ranked) is None,
{
    lemma_sort_desc(crate::positive_gains(g.gains@));
}

} // verus!
