//! Over-representation analysis: the counts that each set is tested on.
//!
//! The p-value of a tested set is the upper tail of a hypergeometric
//! distribution, a real number; the caller evaluates it on the counts that
//! are returned here, and adjusts the p-values of all sets afterwards.

use ahash::AHashSet;
use vstd::prelude::*;
use crate::fraction::lemma_product_fits;
use crate::fraction::Fraction;
use crate::names::name_set_contains;
use crate::names::name_set_insert;
use crate::names::name_set_len;
use crate::names::name_set_new;
use crate::names::names_of;
use crate::names::set_names;
use crate::readers::utils::Item;
use crate::stat::AdjustmentMethod;
use crate::StatisticsError;
use crate::WebGestaltError;

verus! {

/// Parameters of an analysis.
#[derive(Debug, Clone, Copy, PartialEq, Eq, Structural)]
pub struct ORAConfig {
    /// Smallest overlap with the interest list at which a set is tested.
    pub min_overlap: i64,
    /// Smallest number of members of a set that is read.
    pub min_set_size: usize,
    /// Largest number of members of a set that is read.
    pub max_set_size: usize,
    /// How the p-values are adjusted.
    pub fdr_method: AdjustmentMethod,
}

impl Default for ORAConfig {
    fn default() -> (config: ORAConfig)
        ensures
            config == (ORAConfig {
                min_overlap: 5,
                min_set_size: 5,
                max_set_size: 500,
                fdr_method: AdjustmentMethod::BH,
            }),
    {
        ORAConfig {
            min_overlap: 5,
            min_set_size: 5,
            max_set_size: 500,
            fdr_method: AdjustmentMethod::BH,
        }
    }
}

/// The overlap of a set with its expected overlap.
#[derive(Debug, Clone, Copy, PartialEq, Eq, Structural)]
pub enum EnrichmentRatio {
    /// Nothing found where nothing was expected.
    Zero,
    /// Something found where nothing was expected: no ratio exists.
    Undefined,
    /// The overlap over the expected overlap.
    Ratio(Fraction),
}

/// What is counted for one set.
#[derive(Debug)]
pub struct PartialORAResult {
    /// The set's identifier.
    pub set: String,
    /// The number of members in the interest list.
    pub overlap: usize,
    /// The number of members in the reference list.
    pub in_reference: usize,
    /// Whether the set is tested; the p-value of a set that is not is one.
    pub tested: bool,
    /// The overlap expected by chance.
    pub expected: Fraction,
    /// The overlap over the expected overlap.
    pub enrichment_ratio: EnrichmentRatio,
}

/// The number of members of a set that a list holds. Members that repeat
/// count once.
pub open spec fn overlap_with(item: &Item, names: Set<Seq<char>>) -> nat {
    item.members().intersect(names).len()
}

/// The number of members of a set lies between the two bounds.
pub open spec fn size_admitted(item: &Item, config: &ORAConfig) -> bool {
    config.min_set_size <= item.parts@.len() <= config.max_set_size
}

/// The ratio of an overlap to the overlap expected from `in_reference`
/// members in a reference of `population` names and an interest list of
/// `draws` names.
pub open spec fn ratio_of(overlap: nat, in_reference: nat, population: nat, draws: nat)
    -> EnrichmentRatio {
    if in_reference * draws == 0 {
        if overlap == 0 {
            EnrichmentRatio::Zero
        } else {
            EnrichmentRatio::Undefined
        }
    } else {
        EnrichmentRatio::Ratio(
            Fraction {
                numerator: (overlap * population) as u128,
                denominator: (in_reference * draws) as u128,
            },
        )
    }
}

impl PartialORAResult {
    /// The counts are those of `item` against the two lists: a set whose
    /// size is out of bounds has no overlap and is not tested; any other set
    /// has its overlaps counted and is tested where its overlap with the
    /// interest list reaches the smallest overlap.
    pub open spec fn counts(
        &self,
        item: &Item,
        interest: Set<Seq<char>>,
        reference: Set<Seq<char>>,
        config: &ORAConfig,
    ) -> bool {
        let read = size_admitted(item, config);
        let k = if read {
            overlap_with(item, interest)
        } else {
            0
        };
        let j = if read {
            overlap_with(item, reference)
        } else {
            0
        };
        &&& self.set@ == item.id@
        &&& self.overlap == k
        &&& self.in_reference == j
        &&& self.tested == (read && k >= config.min_overlap)
        &&& self.expected == (Fraction {
            numerator: (j * interest.len()) as u128,
            denominator: reference.len() as u128,
        })
        &&& self.enrichment_ratio == ratio_of(k, j, reference.len(), interest.len())
    }
}

/// Taking one more name into a finite set changes its overlap with another
/// set by one where the name is new and the other set holds it, and not at
/// all otherwise.
pub proof fn lemma_overlap_insert(s: Set<Seq<char>>, other: Set<Seq<char>>, x: Seq<char>)
    requires
        s.finite(),
    ensures
        s.intersect(other).finite(),
        s.insert(x).intersect(other).finite(),
        s.insert(x).intersect(other).len() == s.intersect(other).len() + (if !s.contains(x)
            && other.contains(x) {
            1nat
        } else {
            0nat
        }),
{
    vstd::set::axiom_set_intersect_finite(s, other);
    vstd::set::axiom_set_insert_finite(s, x);
    vstd::set::axiom_set_intersect_finite(s.insert(x), other);
    if !s.contains(x) && other.contains(x) {
        assert(s.insert(x).intersect(other) =~= s.intersect(other).insert(x));
        vstd::set::axiom_set_insert_len(s.intersect(other), x);
    } else {
        assert(s.insert(x).intersect(other) =~= s.intersect(other));
    }
}

/// The overlaps of one set with the interest list and the reference list.
fn count_overlaps(
    item: &Item,
    interest_list: &AHashSet<String>,
    reference: &AHashSet<String>,
) -> (found: (usize, usize))
    ensures
        found.0 == overlap_with(item, set_names(*interest_list)),
        found.1 == overlap_with(item, set_names(*reference)),
        found.0 <= item.parts@.len(),
        found.1 <= item.parts@.len(),
{
    let mut seen: AHashSet<String> = name_set_new();
    let mut k: usize = 0;
    let mut j: usize = 0;
    let mut m: usize = 0;
    let ghost interest = set_names(*interest_list);
    let ghost refs = set_names(*reference);
    proof {
        assert(names_of(item.parts@).take(0).to_set() =~= Set::<Seq<char>>::empty());
        assert(set_names(seen).intersect(interest) =~= Set::<Seq<char>>::empty());
        assert(set_names(seen).intersect(refs) =~= Set::<Seq<char>>::empty());
    }
    while m < item.parts.len()
        invariant
            m <= item.parts@.len(),
            interest == set_names(*interest_list),
            refs == set_names(*reference),
            set_names(seen) == names_of(item.parts@).take(m as int).to_set(),
            k == set_names(seen).intersect(interest).len(),
            j == set_names(seen).intersect(refs).len(),
            k <= m,
            j <= m,
        decreases item.parts@.len() - m,
    {
        let analyte = &item.parts[m];
        let ghost held = set_names(seen);
        let ghost before = names_of(item.parts@).take(m as int);
        proof {
            vstd::seq_lib::seq_to_set_is_finite(before);
            lemma_overlap_insert(held, interest, analyte@);
            lemma_overlap_insert(held, refs, analyte@);
            assert(names_of(item.parts@).take(m + 1) =~= before.push(analyte@));
            before.lemma_push_to_set_commute(analyte@);
        }
        let fresh = name_set_insert(&mut seen, analyte.clone());
        if fresh {
            if name_set_contains(interest_list, analyte) {
                k += 1;
            }
            if name_set_contains(reference, analyte) {
                j += 1;
            }
        }
        m += 1;
    }
    proof {
        assert(names_of(item.parts@).take(item.parts@.len() as int) =~= names_of(item.parts@));
    }
    (k, j)
}

/// Counts, for every set, what its test is run on. The result is aligned
/// with the sets. An empty interest list or an empty reference list is
/// refused, the interest list first.
pub fn get_ora(
    interest_list: &AHashSet<String>,
    reference: &AHashSet<String>,
    gmt: &Vec<Item>,
    config: &ORAConfig,
) -> (out: Result<Vec<PartialORAResult>, WebGestaltError>)
    ensures
        match out {
            Ok(rows) => {
                &&& set_names(*interest_list).len() > 0
                &&& set_names(*reference).len() > 0
                &&& rows@.len() == gmt@.len()
                &&& forall|i: int|
                    0 <= i < gmt@.len() ==> (#[trigger] rows@[i]).counts(
                        &gmt@[i],
                        set_names(*interest_list),
                        set_names(*reference),
                        config,
                    )
                &&& forall|i: int|
                    0 <= i < gmt@.len() ==> (#[trigger] rows@[i]).overlap <= gmt@[i].parts@.len()
            },
            Err(WebGestaltError::StatisticsError(StatisticsError::InvalidValue { value })) => {
                if set_names(*interest_list).len() == 0 {
                    value@ == "interest list"@
                } else {
                    set_names(*reference).len() == 0 && value@ == "reference list"@
                }
            },
            Err(_) => false,
        },
{
    let n = name_set_len(interest_list);
    let population = name_set_len(reference);
    if n == 0 {
        return Err(
            WebGestaltError::StatisticsError(
                StatisticsError::InvalidValue { value: "interest list".to_owned() },
            ),
        );
    }
    if population == 0 {
        return Err(
            WebGestaltError::StatisticsError(
                StatisticsError::InvalidValue { value: "reference list".to_owned() },
            ),
        );
    }
    let mut rows: Vec<PartialORAResult> = Vec::new();
    let mut i: usize = 0;
    while i < gmt.len()
        invariant
            i <= gmt@.len(),
            n == set_names(*interest_list).len(),
            population == set_names(*reference).len(),
            n > 0,
            population > 0,
            rows@.len() == i,
            forall|r: int|
                0 <= r < i ==> (#[trigger] rows@[r]).counts(
                    &gmt@[r],
                    set_names(*interest_list),
                    set_names(*reference),
                    config,
                ),
            forall|r: int| 0 <= r < i ==> (#[trigger] rows@[r]).overlap <= gmt@[r].parts@.len(),
        decreases gmt@.len() - i,
    {
        let item = &gmt[i];
        let size = item.parts.len();
        let read = config.min_set_size <= size && size <= config.max_set_size;
        let (k, j) = if read {
            count_overlaps(item, interest_list, reference)
        } else {
            (0usize, 0usize)
        };
        proof {
            lemma_product_fits(j, n);
            lemma_product_fits(k, population);
        }
        let chance: u128 = (j as u128) * (n as u128);
        let enrichment_ratio = if chance == 0 {
            if k == 0 {
                EnrichmentRatio::Zero
            } else {
                EnrichmentRatio::Undefined
            }
        } else {
            EnrichmentRatio::Ratio(
                Fraction { numerator: (k as u128) * (population as u128), denominator: chance },
            )
        };
        let tested = read && (k as i128) >= (config.min_overlap as i128);
        rows.push(
            PartialORAResult {
                set: item.id.clone(),
                overlap: k,
                in_reference: j,
                tested,
                expected: Fraction { numerator: chance, denominator: population as u128 },
                enrichment_ratio,
            },
        );
        i += 1;
    }
    Ok(rows)
}

} // verus!
