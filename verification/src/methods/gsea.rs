//! Gene set enrichment analysis: everything about a run that is decided by
//! order, membership and counting.
//!
//! The running sums themselves, the weights and the normalised scores are
//! sums and quotients of real scores; the caller computes them and hands
//! them in as keys.

use ahash::AHashSet;
use rand::rngs::OsRng;
use rand::rngs::SmallRng;
use rand::seq::SliceRandom;
use rand::SeedableRng;
use vstd::prelude::*;
use crate::fraction::lemma_product_fits;
use crate::fraction::Fraction;
use crate::names::name_set_contains;
use crate::names::name_set_from;
use crate::names::set_names;
use crate::order::before_descending;
use crate::order::check_permutation;
use crate::order::descending_order;
use crate::order::identity_order;
use crate::order::is_descending_order;
use crate::order::is_permutation;
use crate::order::lemma_descending_order_unique;
use crate::order::lemma_rearranged_identity;
use crate::order::magnitude;
use crate::order::same_side;
use crate::readers::utils::Item;
use crate::ConfigurationError;
use crate::StatisticsError;
use crate::WebGestaltError;

verus! {

/// Parameters of a run.
#[derive(Debug, Clone, Copy, PartialEq, Eq, Structural)]
pub struct GSEAConfig {
    /// Smallest overlap with the rank list that a set must have.
    pub min_overlap: i32,
    /// Largest overlap with the rank list that a set may have.
    pub max_overlap: i32,
    /// Number of permutations of the rank list.
    pub permutations: i32,
}

impl Default for GSEAConfig {
    fn default() -> (config: GSEAConfig)
        ensures
            config == (GSEAConfig { min_overlap: 15, max_overlap: 500, permutations: 1000 }),
    {
        GSEAConfig { min_overlap: 15, max_overlap: 500, permutations: 1000 }
    }
}

impl GSEAConfig {
    /// A set with this overlap is scored.
    pub open spec fn admits_overlap(&self, overlap: nat) -> bool {
        self.min_overlap <= overlap <= self.max_overlap
    }

    /// Tells whether a set with this overlap is scored: the overlap must
    /// lie between the two bounds, both included.
    pub fn admits(&self, overlap: usize) -> (scored: bool)
        ensures
            scored == self.admits_overlap(overlap as nat),
    {
        let k: i128 = overlap as i128;
        (self.min_overlap as i128) <= k && k <= (self.max_overlap as i128)
    }
}

/// A set whose overlap is exactly the lower bound is scored, and one whose
/// overlap is one less is not.
pub proof fn lemma_overlap_boundary(config: GSEAConfig)
    requires
        0 < config.min_overlap <= config.max_overlap,
    ensures
        config.admits_overlap(config.min_overlap as nat),
        !config.admits_overlap((config.min_overlap - 1) as nat),
{
}

/// An analyte with its score key.
#[derive(Debug)]
pub struct RankListItem {
    pub analyte: String,
    pub rank: i64,
}

impl RankListItem {
    /// Splits a rank list into its analytes and its score keys.
    pub fn to_vecs(input: Vec<RankListItem>) -> (split: (Vec<String>, Vec<i64>))
        ensures
            split.0@.len() == input@.len(),
            split.1@.len() == input@.len(),
            forall|i: int|
                0 <= i < input@.len() ==> (#[trigger] split.0@[i])@ == input@[i].analyte@,
            forall|i: int| 0 <= i < input@.len() ==> (#[trigger] split.1@[i]) == input@[i].rank,
    {
        let mut analytes: Vec<String> = Vec::new();
        let mut ranks: Vec<i64> = Vec::new();
        let mut i: usize = 0;
        while i < input.len()
            invariant
                i <= input@.len(),
                analytes@.len() == i,
                ranks@.len() == i,
                forall|j: int| 0 <= j < i ==> (#[trigger] analytes@[j])@ == input@[j].analyte@,
                forall|j: int| 0 <= j < i ==> (#[trigger] ranks@[j]) == input@[j].rank,
            decreases input@.len() - i,
        {
            analytes.push(input[i].analyte.clone());
            ranks.push(input[i].rank);
            i += 1;
        }
        (analytes, ranks)
    }
}

/// The number of marked positions among the first `upto`.
pub open spec fn count_hits(mask: Seq<bool>, upto: int) -> nat
    decreases upto,
{
    if upto <= 0 {
        0
    } else {
        count_hits(mask, upto - 1) + if mask[upto - 1] {
            1nat
        } else {
            0nat
        }
    }
}

/// At most `upto` of the first `upto` positions are marked.
pub proof fn lemma_count_hits_bound(mask: Seq<bool>, upto: int)
    requires
        0 <= upto,
    ensures
        count_hits(mask, upto) <= upto,
    decreases upto,
{
    if upto > 0 {
        lemma_count_hits_bound(mask, upto - 1);
    }
}

/// Which analytes of a rank list a set holds, and how many.
#[derive(Debug)]
pub struct SetHits {
    /// One mark for each analyte of the rank list: whether the set holds it.
    pub mask: Vec<bool>,
    /// The number of marks: the overlap of the set with the rank list.
    pub overlap: usize,
    /// The number of analytes that the set does not hold.
    pub misses: usize,
}

/// Marks the analytes of a rank list that are members of a set and counts
/// them. Members that repeat count once; an analyte that occurs twice in
/// the rank list is marked twice.
pub fn set_hits(analytes: &Vec<String>, item: &Item) -> (hits: SetHits)
    ensures
        hits.mask@.len() == analytes@.len(),
        forall|i: int|
            0 <= i < analytes@.len() ==> (#[trigger] hits.mask@[i]) == item.members().contains(
                analytes@[i]@,
            ),
        hits.overlap == count_hits(hits.mask@, analytes@.len() as int),
        hits.overlap + hits.misses == analytes@.len(),
{
    let members: AHashSet<String> = name_set_from(&item.parts);
    let mut mask: Vec<bool> = Vec::new();
    let mut overlap: usize = 0;
    let mut i: usize = 0;
    while i < analytes.len()
        invariant
            i <= analytes@.len(),
            mask@.len() == i,
            set_names(members) == item.members(),
            forall|j: int|
                0 <= j < i ==> (#[trigger] mask@[j]) == item.members().contains(analytes@[j]@),
            overlap == count_hits(mask@, i as int),
            overlap <= i,
        decreases analytes@.len() - i,
    {
        let found = name_set_contains(&members, &analytes[i]);
        let ghost before = mask@;
        mask.push(found);
        proof {
            lemma_count_hits_prefix(before, mask@, i as int);
        }
        if found {
            overlap += 1;
        }
        i += 1;
    }
    let misses = analytes.len() - overlap;
    SetHits { mask, overlap, misses }
}

/// The number of analytes among the first `upto` of a rank list that are
/// members of a set.
pub open spec fn overlap_upto(analytes: Seq<String>, item: &Item, upto: int) -> nat
    decreases upto,
{
    if upto <= 0 {
        0
    } else {
        overlap_upto(analytes, item, upto - 1) + if item.members().contains(
            analytes[upto - 1]@,
        ) {
            1nat
        } else {
            0nat
        }
    }
}

/// The overlap of a set with a rank list: the number of analytes of the
/// list that are members of the set.
pub open spec fn rank_list_overlap(analytes: Seq<String>, item: &Item) -> nat {
    overlap_upto(analytes, item, analytes.len() as int)
}

/// A mask that marks the members of a set counts the overlap.
pub proof fn lemma_overlap_of_mask(analytes: Seq<String>, item: &Item, mask: Seq<bool>, upto: int)
    requires
        0 <= upto <= analytes.len(),
        mask.len() == analytes.len(),
        forall|i: int|
            0 <= i < analytes.len() ==> (#[trigger] mask[i]) == item.members().contains(
                analytes[i]@,
            ),
    ensures
        count_hits(mask, upto) == overlap_upto(analytes, item, upto),
    decreases upto,
{
    if upto > 0 {
        lemma_overlap_of_mask(analytes, item, mask, upto - 1);
    }
}

/// Counting depends only on the positions that are counted.
pub proof fn lemma_count_hits_prefix(a: Seq<bool>, b: Seq<bool>, upto: int)
    requires
        0 <= upto <= a.len(),
        upto <= b.len(),
        forall|j: int| 0 <= j < upto ==> a[j] == b[j],
    ensures
        count_hits(a, upto) == count_hits(b, upto),
    decreases upto,
{
    if upto > 0 {
        lemma_count_hits_prefix(a, b, upto - 1);
    }
}

/// The marks of a rank list read in the order of a permutation: position
/// `i` of the result is the mark at `order[i]`.
pub open spec fn walk_marks(analytes: Seq<bool>, order: Seq<usize>) -> Seq<bool> {
    Seq::new(order.len(), |i: int| analytes[order[i] as int])
}

/// `order` holds positions of a list of length `n` only.
pub open spec fn within(order: Seq<usize>, n: nat) -> bool {
    forall|i: int| 0 <= i < order.len() ==> (#[trigger] order[i]) < n
}

/// Position `at` is where a walk is first farthest from zero, and it is
/// away from zero there.
pub open spec fn is_peak(walk: Seq<i64>, at: int) -> bool {
    &&& 0 <= at < walk.len()
    &&& magnitude(walk[at]) > 0
    &&& forall|j: int| 0 <= j < at ==> magnitude(#[trigger] walk[j]) < magnitude(walk[at])
    &&& forall|j: int| 0 <= j < walk.len() ==> magnitude(#[trigger] walk[j]) <= magnitude(walk[at])
}

/// The walk never leaves zero.
pub open spec fn is_flat(walk: Seq<i64>) -> bool {
    forall|j: int| 0 <= j < walk.len() ==> (#[trigger] walk[j]) == 0
}

/// The enrichment score of a walk.
#[derive(Debug, Clone, Copy)]
pub struct EnrichmentScore {
    /// The running sum where it is first farthest from zero; zero for a
    /// walk that never leaves zero.
    pub score: i64,
    /// Where that is, if the walk leaves zero.
    pub peak: Option<usize>,
    /// For a positive score, the hits up to the peak, the peak included;
    /// otherwise the length of the walk less those hits.
    pub leading_edge: usize,
}

impl EnrichmentScore {
    /// The score, the peak and the leading edge are those of this walk.
    pub open spec fn describes(&self, marks: Seq<bool>, walk: Seq<i64>) -> bool {
        match self.peak {
            Some(at) => {
                &&& is_peak(walk, at as int)
                &&& self.score == walk[at as int]
                &&& self.leading_edge == (if self.score > 0 {
                    count_hits(marks, at + 1) as int
                } else {
                    walk.len() - count_hits(marks, at + 1)
                })
            },
            None => {
                &&& is_flat(walk)
                &&& self.score == 0
                &&& self.leading_edge == walk.len()
            },
        }
    }
}

/// Finds the enrichment score of a walk: the running sum of largest
/// magnitude, the first one among equals, and the leading edge there.
/// `analytes` marks the hits of the rank list, `order` is the order in which
/// the walk visits them, and `walk` holds the running sum after each step.
pub fn enrichment_score(
    analytes: &Vec<bool>,
    walk: &Vec<i64>,
    order: &Vec<usize>,
) -> (es: EnrichmentScore)
    requires
        walk@.len() == order@.len(),
        within(order@, analytes@.len() as nat),
    ensures
        es.describes(walk_marks(analytes@, order@), walk@),
        es.leading_edge <= walk@.len(),
{
    let n = walk.len();
    let ghost marks = walk_marks(analytes@, order@);
    let mut score: i64 = 0;
    let mut peak: Option<usize> = None;
    let mut hits: usize = 0;
    let mut max_hits: usize = 0;
    let mut i: usize = 0;
    while i < n
        invariant
            n == walk@.len(),
            n == order@.len(),
            i <= n,
            within(order@, analytes@.len() as nat),
            marks == walk_marks(analytes@, order@),
            hits == count_hits(marks, i as int),
            hits <= i,
            max_hits <= hits,
            match peak {
                Some(at) => {
                    &&& at < i
                    &&& magnitude(walk@[at as int]) > 0
                    &&& score == walk@[at as int]
                    &&& max_hits == count_hits(marks, at + 1)
                    &&& forall|j: int|
                        0 <= j < at ==> magnitude(#[trigger] walk@[j]) < magnitude(score)
                    &&& forall|j: int|
                        0 <= j < i ==> magnitude(#[trigger] walk@[j]) <= magnitude(score)
                },
                None => {
                    &&& score == 0
                    &&& max_hits == 0
                    &&& forall|j: int| 0 <= j < i ==> (#[trigger] walk@[j]) == 0
                },
            },
        decreases n - i,
    {
        if analytes[order[i]] {
            hits += 1;
        }
        let es = walk[i];
        if farther(es, score) {
            score = es;
            peak = Some(i);
            max_hits = hits;
        }
        i += 1;
    }
    proof {
        lemma_count_hits_bound(marks, max_hits as int);
        if let Some(at) = peak {
            lemma_count_hits_bound(marks, at + 1);
        }
    }
    let leading_edge = if score > 0 {
        max_hits
    } else {
        n - max_hits
    };
    EnrichmentScore { score, peak, leading_edge }
}

/// Tells whether `a` is strictly farther from zero than `b`.
pub fn farther(a: i64, b: i64) -> (r: bool)
    ensures
        r == (magnitude(a) > magnitude(b)),
{
    let x: i128 = if a < 0 {
        -(a as i128)
    } else {
        a as i128
    };
    let y: i128 = if b < 0 {
        -(b as i128)
    } else {
        b as i128
    };
    x > y
}

/// Tells whether `a` is at least as far from zero as `b`.
pub fn as_far(a: i64, b: i64) -> (r: bool)
    ensures
        r == (magnitude(a) >= magnitude(b)),
{
    !farther(b, a)
}

/// The number of keys among the first `upto` that lie on the side of
/// `observed`.
pub open spec fn count_side(null: Seq<i64>, observed: i64, upto: int) -> nat
    decreases upto,
{
    if upto <= 0 {
        0
    } else {
        count_side(null, observed, upto - 1) + if same_side(null[upto - 1], observed) {
            1nat
        } else {
            0nat
        }
    }
}

/// The number of keys among the first `upto` that lie on the side of
/// `observed` and at least as far from zero.
pub open spec fn count_beyond(null: Seq<i64>, observed: i64, upto: int) -> nat
    decreases upto,
{
    if upto <= 0 {
        0
    } else {
        count_beyond(null, observed, upto - 1) + if same_side(null[upto - 1], observed)
            && magnitude(null[upto - 1]) >= magnitude(observed) {
            1nat
        } else {
            0nat
        }
    }
}

/// Of the keys on one side, no more lie beyond a value than there are.
pub proof fn lemma_count_beyond_bound(null: Seq<i64>, observed: i64, upto: int)
    requires
        0 <= upto,
    ensures
        count_beyond(null, observed, upto) <= count_side(null, observed, upto) <= upto,
    decreases upto,
{
    if upto > 0 {
        lemma_count_beyond_bound(null, observed, upto - 1);
    }
}

/// The keys among the first `upto` that are at least zero, or those that
/// are below zero, in order.
pub open spec fn side_keys(keys: Seq<i64>, upper: bool, upto: int) -> Seq<i64>
    decreases upto,
{
    if upto <= 0 {
        Seq::empty()
    } else {
        let earlier = side_keys(keys, upper, upto - 1);
        if (keys[upto - 1] >= 0) == upper {
            earlier.push(keys[upto - 1])
        } else {
            earlier
        }
    }
}

/// The permutation scores of the two sides.
#[derive(Debug)]
pub struct Sides {
    /// The scores that are at least zero.
    pub up: Vec<i64>,
    /// The scores below zero.
    pub down: Vec<i64>,
}

/// Parts the permutation scores into those that are at least zero and those
/// below zero, each side in the order of the permutations.
pub fn split_by_side(es_iter: &Vec<i64>) -> (sides: Sides)
    ensures
        sides.up@ == side_keys(es_iter@, true, es_iter@.len() as int),
        sides.down@ == side_keys(es_iter@, false, es_iter@.len() as int),
        sides.up@.len() + sides.down@.len() == es_iter@.len(),
{
    let mut up: Vec<i64> = Vec::new();
    let mut down: Vec<i64> = Vec::new();
    let mut i: usize = 0;
    while i < es_iter.len()
        invariant
            i <= es_iter@.len(),
            up@ == side_keys(es_iter@, true, i as int),
            down@ == side_keys(es_iter@, false, i as int),
            up@.len() + down@.len() == i,
        decreases es_iter@.len() - i,
    {
        if es_iter[i] >= 0 {
            up.push(es_iter[i]);
        } else {
            down.push(es_iter[i]);
        }
        i += 1;
    }
    Sides { up, down }
}

/// Where all keys of a distribution are equal, the share of them beyond a
/// value is nothing or everything: the p-value is zero or one.
pub proof fn lemma_equal_scores_p(null: Seq<i64>, observed: i64, upto: int)
    requires
        0 <= upto <= null.len(),
        forall|i: int, j: int| 0 <= i < null.len() && 0 <= j < null.len() ==> null[i] == null[j],
    ensures
        count_beyond(null, observed, upto) == 0 || count_beyond(null, observed, upto)
            == count_side(null, observed, upto),
        upto > 0 ==> count_side(null, observed, upto) == (if same_side(null[0], observed) {
            upto
        } else {
            0
        }),
        upto > 0 ==> count_beyond(null, observed, upto) == (if same_side(null[0], observed)
            && magnitude(null[0]) >= magnitude(observed) {
            upto
        } else {
            0
        }),
    decreases upto,
{
    if upto > 0 {
        lemma_equal_scores_p(null, observed, upto - 1);
        assert(null[upto - 1] == null[0]);
        if upto == 1 {
            assert(count_side(null, observed, 0) == 0);
            assert(count_beyond(null, observed, 0) == 0);
        }
    }
}

/// How a value compares with a distribution: how many of its keys lie on
/// the side of the value, and how many of those at least as far from zero.
#[derive(Debug, Clone, Copy, PartialEq, Eq, Structural)]
pub struct TailCount {
    pub beyond: usize,
    pub side: usize,
}

/// Counts the keys of a distribution on the side of `observed` (at least
/// zero, or below zero) and, among them, those whose magnitude is at least
/// that of `observed`.
pub fn tail_count(null: &Vec<i64>, observed: i64) -> (t: TailCount)
    ensures
        t.side == count_side(null@, observed, null@.len() as int),
        t.beyond == count_beyond(null@, observed, null@.len() as int),
        t.beyond <= t.side <= null@.len(),
{
    let mut beyond: usize = 0;
    let mut side: usize = 0;
    let mut i: usize = 0;
    while i < null.len()
        invariant
            i <= null@.len(),
            side == count_side(null@, observed, i as int),
            beyond == count_beyond(null@, observed, i as int),
            beyond <= side <= i,
        decreases null@.len() - i,
    {
        let x = null[i];
        if (x >= 0) == (observed >= 0) {
            side += 1;
            if as_far(x, observed) {
                beyond += 1;
            }
        }
        i += 1;
    }
    TailCount { beyond, side }
}

/// The permutation p-value of a tail count.
pub open spec fn p_of(t: TailCount) -> Fraction {
    if t.side == 0 {
        Fraction { numerator: 0, denominator: 1 }
    } else {
        Fraction { numerator: t.beyond as u128, denominator: t.side as u128 }
    }
}

/// The p-value of a set: the share of the permutation scores on the side of
/// the observed score that are at least as far from zero. With no
/// permutation score on that side the p-value is zero.
pub fn permutation_p(t: TailCount) -> (p: Fraction)
    requires
        t.beyond <= t.side,
    ensures
        p == p_of(t),
        p.is_probability(),
{
    if t.side == 0 {
        Fraction::zero()
    } else {
        Fraction::share(t.beyond, t.side)
    }
}

/// A walk has one enrichment score: two descriptions of the same walk
/// agree in every field.
pub proof fn lemma_enrichment_score_unique(
    marks: Seq<bool>,
    walk: Seq<i64>,
    a: EnrichmentScore,
    b: EnrichmentScore,
)
    requires
        a.describes(marks, walk),
        b.describes(marks, walk),
    ensures
        a == b,
{
    match (a.peak, b.peak) {
        (Some(x), Some(y)) => {
            if x < y {
                assert(magnitude(walk[x as int]) < magnitude(walk[y as int]));
                assert(magnitude(walk[y as int]) <= magnitude(walk[x as int]));
            } else if y < x {
                assert(magnitude(walk[y as int]) < magnitude(walk[x as int]));
                assert(magnitude(walk[x as int]) <= magnitude(walk[y as int]));
            }
        },
        (Some(x), None) => {
            assert(walk[x as int] == 0);
        },
        (None, Some(y)) => {
            assert(walk[y as int] == 0);
        },
        (None, None) => {},
    }
}

/// How the keys of a whole distribution compare with a value.
pub open spec fn tail_of(null: Seq<i64>, observed: i64) -> TailCount {
    TailCount {
        beyond: count_beyond(null, observed, null.len() as int) as usize,
        side: count_side(null, observed, null.len() as int) as usize,
    }
}

/// The result for one set before the false discovery rate is known.
#[derive(Debug)]
pub struct PartialGSEAResult {
    /// Whether the set was scored. A set outside of the overlap bounds is
    /// not, and takes no part in the pooled distributions.
    pub scored: bool,
    /// The set's identifier.
    pub set: String,
    /// The permutation p-value.
    pub p: Fraction,
    /// The enrichment score.
    pub es: i64,
    /// The normalised enrichment score.
    pub nes: i64,
    /// The leading edge count.
    pub leading_edge: usize,
    /// The running sum after each analyte of the rank list.
    pub running_sum: Vec<i64>,
    /// The normalised scores of the permutations.
    pub nes_iter: Vec<i64>,
}

/// The result for one set.
#[derive(Debug)]
pub struct GSEAResult {
    /// The set's identifier.
    pub set: String,
    /// The permutation p-value.
    pub p: Fraction,
    /// The false discovery rate.
    pub fdr: Fraction,
    /// The enrichment score.
    pub es: i64,
    /// The normalised enrichment score.
    pub nes: i64,
    /// The leading edge count.
    pub leading_edge: usize,
    /// The running sum after each analyte of the rank list.
    pub running_sum: Vec<i64>,
}

impl GSEAResult {
    /// The result repeats a partial result and adds this rate.
    pub open spec fn completes(&self, partial: &PartialGSEAResult, fdr: Fraction) -> bool {
        &&& self.set@ == partial.set@
        &&& self.p == partial.p
        &&& self.fdr == fdr
        &&& self.es == partial.es
        &&& self.nes == partial.nes
        &&& self.leading_edge == partial.leading_edge
        &&& self.running_sum@ == partial.running_sum@
    }
}

impl PartialGSEAResult {
    /// The full result: this one with the false discovery rate added.
    pub fn add_fdr(&self, fdr: Fraction) -> (full: GSEAResult)
        ensures
            full.completes(self, fdr),
    {
        GSEAResult {
            set: self.set.clone(),
            p: self.p,
            fdr,
            es: self.es,
            nes: self.nes,
            leading_edge: self.leading_edge,
            running_sum: self.running_sum.clone(),
        }
    }

    /// The partial result is the one that the walk and the permutation
    /// scores give for the set.
    pub open spec fn scores(
        &self,
        item: &Item,
        mask: Seq<bool>,
        running_sum: Seq<i64>,
        es_iter: Seq<i64>,
        nes: i64,
        nes_iter: Seq<i64>,
    ) -> bool {
        &&& self.scored
        &&& self.set@ == item.id@
        &&& self.running_sum@ == running_sum
        &&& self.nes_iter@ == nes_iter
        &&& self.nes == nes
        &&& exists|peak: Option<usize>|
            (#[trigger] EnrichmentScore {
                score: self.es,
                peak,
                leading_edge: self.leading_edge,
            }.describes(mask, running_sum))
        &&& self.p == p_of(tail_of(es_iter, self.es))
    }
}

impl PartialGSEAResult {
    /// The result is the terminal one of a set that is not scored: the
    /// p-value is one, the scores and the leading edge are zero, and there
    /// are no running sums and no permutation scores.
    pub open spec fn is_terminal(&self, item: &Item) -> bool {
        &&& !self.scored
        &&& self.set@ == item.id@
        &&& self.p == (Fraction { numerator: 1, denominator: 1 })
        &&& self.es == 0
        &&& self.nes == 0
        &&& self.leading_edge == 0
        &&& self.running_sum@.len() == 0
        &&& self.nes_iter@.len() == 0
    }
}

/// The terminal result of a set that is not scored, because its overlap
/// with the rank list lies outside of the bounds or because its hits carry
/// no weight.
pub fn unscored(item: &Item) -> (partial: PartialGSEAResult)
    ensures
        partial.is_terminal(item),
        partial.set@ == item.id@,
        partial.p == (Fraction { numerator: 1, denominator: 1 }),
        partial.es == 0,
        partial.nes == 0,
        partial.leading_edge == 0,
        partial.running_sum@.len() == 0,
        partial.nes_iter@.len() == 0,
{
    PartialGSEAResult {
        scored: false,
        set: item.id.clone(),
        p: Fraction::one(),
        es: 0,
        nes: 0,
        leading_edge: 0,
        running_sum: Vec::new(),
        nes_iter: Vec::new(),
    }
}

/// The partial result of a set in a run: the marks and the count of its
/// hits where the set is scored, and its terminal result where its overlap
/// lies outside of the bounds of the configuration.
#[derive(Debug)]
pub enum SetScoring {
    /// The set is scored on these hits.
    Scored(SetHits),
    /// The set is not scored; this is its result.
    Unscored(PartialGSEAResult),
}

/// Decides whether a set is scored in a run. A set whose overlap with the
/// rank list lies within the bounds is scored, and its hits come back; any
/// other set gets its terminal result.
pub fn filter_set(
    analytes: &Vec<String>,
    item: &Item,
    config: &GSEAConfig,
) -> (scoring: SetScoring)
    ensures
        match scoring {
            SetScoring::Scored(hits) => {
                &&& config.admits_overlap(rank_list_overlap(analytes@, item))
                &&& hits.mask@.len() == analytes@.len()
                &&& forall|i: int|
                    0 <= i < analytes@.len() ==> (#[trigger] hits.mask@[i])
                        == item.members().contains(analytes@[i]@)
                &&& hits.overlap == rank_list_overlap(analytes@, item)
                &&& hits.overlap + hits.misses == analytes@.len()
            },
            SetScoring::Unscored(partial) => {
                &&& !config.admits_overlap(rank_list_overlap(analytes@, item))
                &&& partial.is_terminal(item)
            },
        },
{
    let hits = set_hits(analytes, item);
    proof {
        lemma_overlap_of_mask(analytes@, item, hits.mask@, analytes@.len() as int);
    }
    if config.admits(hits.overlap) {
        SetScoring::Scored(hits)
    } else {
        SetScoring::Unscored(unscored(item))
    }
}

/// The enrichment score of a walk over these marks is `es`.
pub open spec fn has_score(marks: Seq<bool>, walk: Seq<i64>, es: i64) -> bool {
    exists|peak: Option<usize>, leading_edge: usize|
        (#[trigger] EnrichmentScore { score: es, peak, leading_edge }.describes(marks, walk))
}

/// A normalised score fits an enrichment score where it is zero or lies
/// on the same side of zero.
pub open spec fn fits_score(nes: i64, es: i64) -> bool {
    nes == 0 || same_side(nes, es)
}

/// Scores one set from what its walk gave. `mask` marks the hits of the
/// rank list, `running_sum` holds the sum after each analyte, `es_iter` the
/// enrichment score of each permutation, `nes` and `nes_iter` the normalised
/// scores of the walk and of the permutations. The enrichment score and the
/// leading edge are read off the running sum, and the p-value is the share
/// of the permutation scores on the side of the enrichment score that are
/// at least as far from zero. A normalised score on the other side of zero
/// than the enrichment score is refused.
pub fn analyte_set_p(
    item: &Item,
    mask: &Vec<bool>,
    running_sum: Vec<i64>,
    es_iter: &Vec<i64>,
    nes: i64,
    nes_iter: Vec<i64>,
) -> (out: Result<PartialGSEAResult, WebGestaltError>)
    requires
        running_sum@.len() == mask@.len(),
    ensures
        match out {
            Ok(partial) => {
                &&& partial.scores(item, mask@, running_sum@, es_iter@, nes, nes_iter@)
                &&& fits_score(partial.nes, partial.es)
                &&& partial.p.is_probability()
                &&& partial.running_sum@.len() == mask@.len()
                &&& partial.leading_edge <= mask@.len()
            },
            Err(WebGestaltError::StatisticsError(StatisticsError::InvalidValue { value })) => {
                &&& value@ == "normalised score"@
                &&& exists|es: i64| #[trigger]
                    has_score(mask@, running_sum@, es) && !fits_score(nes, es)
            },
            Err(_) => false,
        },
{
    let n = mask.len();
    let mut in_order: Vec<usize> = Vec::new();
    let mut i: usize = 0;
    while i < n
        invariant
            i <= n,
            in_order@.len() == i,
            forall|j: int| 0 <= j < i ==> (#[trigger] in_order@[j]) == j,
        decreases n - i,
    {
        in_order.push(i);
        i += 1;
    }
    proof {
        assert(walk_marks(mask@, in_order@) =~= mask@);
    }
    let found = enrichment_score(mask, &running_sum, &in_order);
    proof {
        assert(EnrichmentScore {
            score: found.score,
            peak: found.peak,
            leading_edge: found.leading_edge,
        }.describes(mask@, running_sum@));
        assert(has_score(mask@, running_sum@, found.score));
    }
    if nes != 0 && (nes >= 0) != (found.score >= 0) {
        return Err(
            WebGestaltError::StatisticsError(
                StatisticsError::InvalidValue { value: "normalised score".to_owned() },
            ),
        );
    }
    let tail = tail_count(es_iter, found.score);
    let p = permutation_p(tail);
    proof {
        assert(tail == tail_of(es_iter@, found.score));
    }
    Ok(
        PartialGSEAResult {
            scored: true,
            set: item.id.clone(),
            p,
            es: found.score,
            nes,
            leading_edge: found.leading_edge,
            running_sum,
            nes_iter,
        },
    )
}

/// A walk has one score: where a normalised score is refused, it fits no
/// score of the walk.
pub proof fn lemma_score_unique(marks: Seq<bool>, walk: Seq<i64>, a: i64, b: i64)
    requires
        has_score(marks, walk, a),
        has_score(marks, walk, b),
    ensures
        a == b,
{
    let (pa, la) = choose|peak: Option<usize>, leading_edge: usize|
        (#[trigger] EnrichmentScore { score: a, peak, leading_edge }.describes(marks, walk));
    let (pb, lb) = choose|peak: Option<usize>, leading_edge: usize|
        (#[trigger] EnrichmentScore { score: b, peak, leading_edge }.describes(marks, walk));
    lemma_enrichment_score_unique(
        marks,
        walk,
        EnrichmentScore { score: a, peak: pa, leading_edge: la },
        EnrichmentScore { score: b, peak: pb, leading_edge: lb },
    );
}

/// The false discovery rate that two tail counts give: the share of the
/// null distribution beyond the observed value over the share of the
/// observed distribution beyond it. An undefined quotient is zero, and a
/// quotient above one is one.
pub open spec fn fdr_of(top: TailCount, bottom: TailCount) -> Fraction {
    if top.beyond == 0 {
        Fraction { numerator: 0, denominator: 1 }
    } else if bottom.beyond == 0 {
        Fraction { numerator: 1, denominator: 1 }
    } else if top.beyond * bottom.side >= bottom.beyond * top.side {
        Fraction { numerator: 1, denominator: 1 }
    } else {
        Fraction {
            numerator: (top.beyond * bottom.side) as u128,
            denominator: (bottom.beyond * top.side) as u128,
        }
    }
}

/// Computes the false discovery rate from the tail counts of the null and
/// of the observed distribution.
pub fn pooled_fdr(top: TailCount, bottom: TailCount) -> (fdr: Fraction)
    ensures
        fdr == fdr_of(top, bottom),
        fdr.is_probability(),
{
    if top.beyond == 0 {
        Fraction::zero()
    } else if bottom.beyond == 0 {
        Fraction::one()
    } else {
        proof {
            lemma_product_fits(top.beyond, bottom.side);
            lemma_product_fits(bottom.beyond, top.side);
        }
        let numerator: u128 = (top.beyond as u128) * (bottom.side as u128);
        let denominator: u128 = (bottom.beyond as u128) * (top.side as u128);
        if numerator >= denominator {
            Fraction::one()
        } else {
            Fraction { numerator, denominator }
        }
    }
}

/// The normalised permutation scores of all scored sets, one set after
/// the other.
pub open spec fn pooled_null(partials: Seq<PartialGSEAResult>) -> Seq<i64>
    decreases partials.len(),
{
    if partials.len() == 0 {
        Seq::empty()
    } else if partials.last().scored {
        pooled_null(partials.drop_last()) + partials.last().nes_iter@
    } else {
        pooled_null(partials.drop_last())
    }
}

/// The normalised scores of the scored sets.
pub open spec fn observed_scores(partials: Seq<PartialGSEAResult>) -> Seq<i64>
    decreases partials.len(),
{
    if partials.len() == 0 {
        Seq::empty()
    } else if partials.last().scored {
        observed_scores(partials.drop_last()).push(partials.last().nes)
    } else {
        observed_scores(partials.drop_last())
    }
}

/// The false discovery rate of the set at position `i`: for a scored set
/// the rate that the two pooled distributions give its normalised score, and
/// one for a set that is not scored.
pub open spec fn fdr_at(partials: Seq<PartialGSEAResult>, i: int) -> Fraction {
    if partials[i].scored {
        fdr_of(
            tail_of(pooled_null(partials), partials[i].nes),
            tail_of(observed_scores(partials), partials[i].nes),
        )
    } else {
        Fraction { numerator: 1, denominator: 1 }
    }
}

/// Completes the results of the sets with their false discovery rates,
/// one result for each set, in order. The null distribution pools the
/// normalised permutation scores of the scored sets, the observed
/// distribution holds their normalised scores; each scored set is compared
/// with the keys on its own side of both. A set that is not scored takes no
/// part in either distribution, and its rate is one.
pub fn gsea(partials: Vec<PartialGSEAResult>) -> (results: Vec<GSEAResult>)
    ensures
        results@.len() == partials@.len(),
        forall|i: int|
            0 <= i < partials@.len() ==> (#[trigger] results@[i]).completes(
                &partials@[i],
                fdr_at(partials@, i),
            ),
        forall|i: int| 0 <= i < results@.len() ==> (#[trigger] results@[i]).fdr.is_probability(),
{
    let n = partials.len();
    let mut null: Vec<i64> = Vec::new();
    let mut observed: Vec<i64> = Vec::new();
    let mut i: usize = 0;
    proof {
        assert(partials@.take(0) =~= Seq::<PartialGSEAResult>::empty());
    }
    while i < n
        invariant
            n == partials@.len(),
            i <= n,
            null@ == pooled_null(partials@.take(i as int)),
            observed@ == observed_scores(partials@.take(i as int)),
        decreases n - i,
    {
        let ghost before = partials@.take(i as int);
        let ghost grown = partials@.take(i + 1);
        proof {
            assert(grown.drop_last() =~= before);
            assert(grown.last() == partials@[i as int]);
        }
        if partials[i].scored {
            let scores = &partials[i].nes_iter;
            let mut j: usize = 0;
            while j < scores.len()
                invariant
                    j <= scores@.len(),
                    null@ == pooled_null(before) + scores@.take(j as int),
                decreases scores@.len() - j,
            {
                null.push(scores[j]);
                proof {
                    assert(scores@.take(j + 1) =~= scores@.take(j as int).push(scores@[j as int]));
                }
                j += 1;
            }
            observed.push(partials[i].nes);
            proof {
                assert(scores@.take(scores@.len() as int) =~= scores@);
            }
        }
        i += 1;
    }
    proof {
        assert(partials@.take(n as int) =~= partials@);
    }
    let mut results: Vec<GSEAResult> = Vec::new();
    let mut k: usize = 0;
    while k < n
        invariant
            n == partials@.len(),
            k <= n,
            null@ == pooled_null(partials@),
            observed@ == observed_scores(partials@),
            results@.len() == k,
            forall|i: int|
                0 <= i < k ==> (#[trigger] results@[i]).completes(
                    &partials@[i],
                    fdr_at(partials@, i),
                ),
            forall|i: int| 0 <= i < k ==> (#[trigger] results@[i]).fdr.is_probability(),
        decreases n - k,
    {
        let fdr = if partials[k].scored {
            let nes = partials[k].nes;
            let top = tail_count(&null, nes);
            let bottom = tail_count(&observed, nes);
            pooled_fdr(top, bottom)
        } else {
            Fraction::one()
        };
        results.push(partials[k].add_fdr(fdr));
        k += 1;
    }
    results
}

/// The small generator of the `rand` crate. Nothing is known of its state.
#[verifier::external_type_specification]
#[verifier::external_body]
pub struct ExSmallRng(SmallRng);

/// `SeedableRng::from_rng` of the `rand` crate, on the generator of the
/// operating system. Trusted for nothing: the generator may be missing, and
/// what it yields is left open.
#[verifier::external_body]
fn rng_from_os() -> (rng: Option<SmallRng>) {
    SmallRng::from_rng(OsRng).ok()
}

/// `SliceRandom::shuffle` of the `rand` crate. Trusted: the shuffle only
/// swaps entries, so the list holds afterwards what it held, each entry as
/// often as before.
#[verifier::external_body]
fn shuffle_indices(order: &mut Vec<usize>, rng: &mut SmallRng)
    ensures
        final(order)@.to_multiset() == old(order)@.to_multiset(),
{
    order.shuffle(rng);
}

/// The table holds `rows` permutations of the positions below `n`.
pub open spec fn is_permutation_table(table: Seq<Vec<usize>>, rows: nat, n: nat) -> bool {
    &&& table.len() == rows
    &&& forall|r: int| 0 <= r < table.len() ==> is_permutation((#[trigger] table[r])@, n)
}

/// The number of rows that a permutation count asks for.
pub open spec fn rows_asked(permutations: i32) -> nat {
    if permutations > 0 {
        permutations as nat
    } else {
        0
    }
}

/// Draws index permutations from a generator: `permutations` shuffles of
/// the positions below `max`, none for a count that is not positive.
pub fn permutations_from(
    rng: &mut SmallRng,
    permutations: i32,
    max: usize,
) -> (table: Vec<Vec<usize>>)
    ensures
        is_permutation_table(table@, rows_asked(permutations), max as nat),
{
    let mut table: Vec<Vec<usize>> = Vec::new();
    let mut r: i32 = 0;
    while r < permutations
        invariant
            0 <= r,
            permutations <= 0 ==> r == 0,
            permutations > 0 ==> r <= permutations,
            is_permutation_table(table@, rows_asked(r), max as nat),
        decreases permutations - r,
    {
        let mut new_order: Vec<usize> = Vec::new();
        let mut i: usize = 0;
        while i < max
            invariant
                i <= max,
                new_order@ == identity_order(i as nat),
            decreases max - i,
        {
            new_order.push(i);
            proof {
                assert(new_order@ =~= identity_order((i + 1) as nat));
            }
            i += 1;
        }
        shuffle_indices(&mut new_order, rng);
        proof {
            lemma_rearranged_identity(new_order@, max as nat);
        }
        table.push(new_order);
        r += 1;
    }
    table
}

/// Creates index permutations from the entropy of the operating system.
/// A count that is not positive is refused. Where the system yields no
/// entropy the failure is reported as such.
pub fn make_permutations(
    permutations: i32,
    max: usize,
) -> (made: Result<Vec<Vec<usize>>, WebGestaltError>)
    ensures
        permutations <= 0 ==> made is Err,
        match made {
            Ok(table) => is_permutation_table(table@, permutations as nat, max as nat),
            Err(WebGestaltError::StatisticsError(StatisticsError::InvalidValue { value })) => {
                permutations <= 0 && value@ == "permutations"@
            },
            Err(WebGestaltError::IOError(_)) => permutations > 0,
            Err(_) => false,
        },
{
    if permutations <= 0 {
        return Err(
            WebGestaltError::StatisticsError(
                StatisticsError::InvalidValue { value: "permutations".to_owned() },
            ),
        );
    }
    match rng_from_os() {
        Some(mut rng) => Ok(permutations_from(&mut rng, permutations, max)),
        None => Err(WebGestaltError::IOError("no entropy".to_owned())),
    }
}

/// Tells whether every row of a table is a permutation of the positions
/// below `n`.
pub fn check_permutations(table: &Vec<Vec<usize>>, n: usize) -> (valid: bool)
    ensures
        valid == is_permutation_table(table@, table@.len(), n as nat),
{
    let mut r: usize = 0;
    while r < table.len()
        invariant
            r <= table@.len(),
            forall|q: int| 0 <= q < r ==> is_permutation((#[trigger] table@[q])@, n as nat),
        decreases table@.len() - r,
    {
        if !check_permutation(&table[r], n) {
            return false;
        }
        r += 1;
    }
    true
}

/// The score keys of a rank list.
pub open spec fn rank_keys(list: Seq<RankListItem>) -> Seq<i64> {
    Seq::new(list.len(), |i: int| list[i].rank)
}

/// `output` holds the items of `input` in the order `order`.
pub open spec fn rearranged(
    input: Seq<RankListItem>,
    order: Seq<usize>,
    output: Seq<RankListItem>,
) -> bool {
    &&& output.len() == order.len()
    &&& forall|i: int|
        0 <= i < output.len() ==> (#[trigger] output[i]).analyte@ == input[order[i] as int].analyte@
            && output[i].rank == input[order[i] as int].rank
}

/// `output` is `input` sorted from the largest score to the smallest,
/// items of equal score in their order.
pub open spec fn is_sorted_rank_list(input: Seq<RankListItem>, output: Seq<RankListItem>) -> bool {
    exists|order: Seq<usize>| #[trigger]
        is_descending_order(rank_keys(input), order) && rearranged(input, order, output)
}

/// No two items of a rank list share a score.
pub open spec fn distinct_scores(list: Seq<RankListItem>) -> bool {
    forall|i: int, j: int|
        0 <= i < j < list.len() ==> (#[trigger] list[i]).rank != (#[trigger] list[j]).rank
}

/// `b` holds the items of `a` in the order `pi`.
pub open spec fn same_items(a: Seq<RankListItem>, pi: Seq<usize>, b: Seq<RankListItem>) -> bool {
    &&& is_permutation(pi, a.len())
    &&& rearranged(a, pi, b)
}

/// Sorting does not depend on the order in which the items come in: where
/// no two items share a score, a rank list and any rearrangement of it are
/// sorted into the same list.
pub proof fn lemma_sort_ignores_input_order(
    a: Seq<RankListItem>,
    pi: Seq<usize>,
    b: Seq<RankListItem>,
    sorted_a: Seq<RankListItem>,
    sorted_b: Seq<RankListItem>,
)
    requires
        distinct_scores(a),
        same_items(a, pi, b),
        is_sorted_rank_list(a, sorted_a),
        is_sorted_rank_list(b, sorted_b),
    ensures
        sorted_a.len() == sorted_b.len(),
        forall|i: int|
            0 <= i < sorted_a.len() ==> (#[trigger] sorted_a[i]).analyte@ == sorted_b[i].analyte@
                && sorted_a[i].rank == sorted_b[i].rank,
{
    let n = a.len();
    let oa = choose|order: Seq<usize>| #[trigger]
        is_descending_order(rank_keys(a), order) && rearranged(a, order, sorted_a);
    let ob = choose|order: Seq<usize>| #[trigger]
        is_descending_order(rank_keys(b), order) && rearranged(b, order, sorted_b);
    let through = Seq::new(n, |i: int| pi[ob[i] as int]);
    assert forall|i: int| 0 <= i < n implies (#[trigger] through[i]) < n by {
        assert(ob[i] < n);
        assert(pi[ob[i] as int] < n);
    }
    assert forall|i: int, j: int| 0 <= i < j < n implies (#[trigger] through[i]) != (
    #[trigger] through[j]) by {
        assert(ob[i] != ob[j]);
        if ob[i] < ob[j] {
            assert(pi[ob[i] as int] != pi[ob[j] as int]);
        } else {
            assert(pi[ob[j] as int] != pi[ob[i] as int]);
        }
    }
    assert forall|i: int, j: int| 0 <= i < j < n implies before_descending(
        rank_keys(a),
        (#[trigger] through[i]) as int,
        (#[trigger] through[j]) as int,
    ) by {
        let x = ob[i] as int;
        let y = ob[j] as int;
        assert(before_descending(rank_keys(b), x, y));
        assert(b[x].rank == a[pi[x] as int].rank);
        assert(b[y].rank == a[pi[y] as int].rank);
        assert(through[i] != through[j]);
        if pi[x] < pi[y] {
            assert(a[pi[x] as int].rank != a[pi[y] as int].rank);
        } else {
            assert(a[pi[y] as int].rank != a[pi[x] as int].rank);
        }
    }
    assert(is_descending_order(rank_keys(a), through));
    lemma_descending_order_unique(rank_keys(a), oa, through);
    assert forall|i: int| 0 <= i < sorted_a.len() implies (#[trigger] sorted_a[i]).analyte@
        == sorted_b[i].analyte@ && sorted_a[i].rank == sorted_b[i].rank by {
        assert(oa[i] == through[i]);
        assert(sorted_b[i].rank == b[ob[i] as int].rank);
        assert(b[ob[i] as int].rank == a[pi[ob[i] as int] as int].rank);
    }
}

/// The score keys of a rank list, as a vector.
pub fn keys_of(list: &Vec<RankListItem>) -> (keys: Vec<i64>)
    ensures
        keys@ == rank_keys(list@),
{
    let n = list.len();
    let mut keys: Vec<i64> = Vec::new();
    let mut i: usize = 0;
    while i < n
        invariant
            n == list@.len(),
            i <= n,
            keys@ == rank_keys(list@).take(i as int),
        decreases n - i,
    {
        keys.push(list[i].rank);
        proof {
            assert(keys@ =~= rank_keys(list@).take(i + 1));
        }
        i += 1;
    }
    proof {
        assert(keys@ =~= rank_keys(list@));
    }
    keys
}

/// The items of a list in the order `order`.
pub fn arrange(list: &Vec<RankListItem>, order: &Vec<usize>) -> (arranged: Vec<RankListItem>)
    requires
        within(order@, list@.len() as nat),
    ensures
        rearranged(list@, order@, arranged@),
{
    let n = order.len();
    let mut arranged: Vec<RankListItem> = Vec::new();
    let mut j: usize = 0;
    while j < n
        invariant
            n == order@.len(),
            j <= n,
            within(order@, list@.len() as nat),
            rearranged(list@, order@.take(j as int), arranged@),
        decreases n - j,
    {
        let source = &list[order[j]];
        arranged.push(RankListItem { analyte: source.analyte.clone(), rank: source.rank });
        j += 1;
    }
    proof {
        assert(order@.take(n as int) =~= order@);
    }
    arranged
}

/// Sorts a rank list by score, largest first. Items of equal score keep
/// their order.
pub fn sort_rank_list(list: &Vec<RankListItem>) -> (sorted: Vec<RankListItem>)
    ensures
        is_sorted_rank_list(list@, sorted@),
{
    let keys = keys_of(list);
    let order = descending_order(&keys);
    arrange(list, &order)
}

/// A rank list made ready for scoring.
#[derive(Debug)]
pub struct RankedInput {
    /// The analytes, largest score first.
    pub analytes: Vec<String>,
    /// Their score keys.
    pub ranks: Vec<i64>,
    /// The permutations of the positions of the list.
    pub permutations: Vec<Vec<usize>>,
}

impl RankedInput {
    /// The analytes and keys are those of `list` sorted by score, largest
    /// first, and every row of the table permutes their positions.
    pub open spec fn prepared_from(&self, list: Seq<RankListItem>) -> bool {
        &&& self.analytes@.len() == list.len()
        &&& self.ranks@.len() == list.len()
        &&& exists|order: Seq<usize>| #[trigger]
            is_descending_order(rank_keys(list), order) && forall|i: int|
                0 <= i < list.len() ==> (#[trigger] self.analytes@[i])@
                    == list[order[i] as int].analyte@ && self.ranks@[i]
                    == list[order[i] as int].rank
        &&& is_permutation_table(self.permutations@, self.permutations@.len(), list.len())
    }
}

/// Prepares a run: checks the overlap bounds, sorts the rank list by score,
/// largest first, splits it, and takes the caller's permutation table or
/// draws one of `config.permutations` rows. A table of the caller must
/// permute the positions of the list in every row.
pub fn prepare(
    analyte_list: &Vec<RankListItem>,
    config: &GSEAConfig,
    provided_permutations: Option<Vec<Vec<usize>>>,
) -> (out: Result<RankedInput, WebGestaltError>)
    ensures
        match out {
            Ok(input) => {
                &&& config.min_overlap <= config.max_overlap
                &&& input.prepared_from(analyte_list@)
                &&& match provided_permutations {
                    Some(table) => input.permutations@ == table@,
                    None => input.permutations@.len() == config.permutations,
                }
            },
            Err(WebGestaltError::ConfigurationError(e)) => {
                &&& e == ConfigurationError::OverlapBounds
                &&& config.min_overlap > config.max_overlap
            },
            Err(WebGestaltError::StatisticsError(StatisticsError::InvalidValue { value })) => {
                &&& config.min_overlap <= config.max_overlap
                &&& match provided_permutations {
                    Some(table) => {
                        &&& !is_permutation_table(table@, table@.len(), analyte_list@.len())
                        &&& value@ == "permutation table"@
                    },
                    None => config.permutations <= 0 && value@ == "permutations"@,
                }
            },
            Err(WebGestaltError::IOError(_)) => {
                &&& config.min_overlap <= config.max_overlap
                &&& provided_permutations is None
                &&& config.permutations > 0
            },
            Err(_) => false,
        },
{
    if config.min_overlap > config.max_overlap {
        return Err(WebGestaltError::ConfigurationError(ConfigurationError::OverlapBounds));
    }
    let n = analyte_list.len();
    let permutations: Vec<Vec<usize>> = match provided_permutations {
        Some(table) => {
            if !check_permutations(&table, n) {
                return Err(
                    WebGestaltError::StatisticsError(
                        StatisticsError::InvalidValue { value: "permutation table".to_owned() },
                    ),
                );
            }
            table
        },
        None => {
            match make_permutations(config.permutations, n) {
                Ok(table) => table,
                Err(e) => {
                    return Err(e);
                },
            }
        },
    };
    let sorted = sort_rank_list(analyte_list);
    let ghost order = choose|order: Seq<usize>| #[trigger]
        is_descending_order(rank_keys(analyte_list@), order) && rearranged(
            analyte_list@,
            order,
            sorted@,
        );
    let (analytes, ranks) = RankListItem::to_vecs(sorted);
    let input = RankedInput { analytes, ranks, permutations };
    proof {
        assert(is_descending_order(rank_keys(analyte_list@), order));
        assert forall|i: int| 0 <= i < analyte_list@.len() implies (#[trigger] input.analytes@[i])@
            == analyte_list@[order[i] as int].analyte@ && input.ranks@[i]
            == analyte_list@[order[i] as int].rank by {
            assert(sorted@[i].rank == analyte_list@[order[i] as int].rank);
        }
    }
    Ok(input)
}

} // verus!
