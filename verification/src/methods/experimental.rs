//! Several rank lists read as one ranking.

use vstd::prelude::*;
use crate::methods::gsea::is_permutation_table;
use crate::methods::gsea::make_permutations;
use crate::methods::gsea::within;
use crate::methods::gsea::RankListItem;
use crate::order::descending_order;
use crate::order::is_descending_order;
use crate::WebGestaltError;

verus! {

/// An analyte of one of several lists, with the number of its list.
#[derive(Debug)]
pub struct TaggedRank {
    pub list_index: usize,
    pub analyte: String,
    pub rank: i64,
}

/// What a tagged item holds, as numbers and characters.
pub struct TaggedView {
    pub list_index: nat,
    pub analyte: Seq<char>,
    pub rank: i64,
}

impl View for TaggedRank {
    type V = TaggedView;

    open spec fn view(&self) -> TaggedView {
        TaggedView { list_index: self.list_index as nat, analyte: self.analyte@, rank: self.rank }
    }
}

/// The views of a list of tagged items.
pub open spec fn tagged_views(items: Seq<TaggedRank>) -> Seq<TaggedView> {
    Seq::new(items.len(), |i: int| items[i]@)
}

/// The items of one list, tagged with the number of the list.
pub open spec fn tag_list(list: Seq<RankListItem>, list_index: nat) -> Seq<TaggedView> {
    Seq::new(
        list.len(),
        |i: int| TaggedView { list_index, analyte: list[i].analyte@, rank: list[i].rank },
    )
}

/// The items of several lists, each tagged with the number of its list,
/// one list after the other.
pub open spec fn tag_lists(lists: Seq<Vec<RankListItem>>) -> Seq<TaggedView>
    decreases lists.len(),
{
    if lists.len() == 0 {
        Seq::empty()
    } else {
        tag_lists(lists.drop_last()) + tag_list(lists.last()@, (lists.len() - 1) as nat)
    }
}

/// The score keys of tagged items.
pub open spec fn tagged_keys(items: Seq<TaggedView>) -> Seq<i64> {
    Seq::new(items.len(), |i: int| items[i].rank)
}

/// `output` holds `input` sorted from the largest score to the smallest,
/// items of equal score in their order.
pub open spec fn is_sorted_tagged(input: Seq<TaggedView>, output: Seq<TaggedView>) -> bool {
    exists|order: Seq<usize>| #[trigger]
        is_descending_order(tagged_keys(input), order) && output.len() == input.len()
            && forall|i: int| 0 <= i < output.len() ==> (#[trigger] output[i]) == input[order[i] as int]
}

/// Merges several rank lists into one ranking: every item is tagged with
/// the number of its list, and the items are sorted by score, largest first.
/// Items of equal score stay in the order of the lists.
pub fn merge_ranks(rank_lists: &Vec<Vec<RankListItem>>) -> (ranks: Vec<TaggedRank>)
    ensures
        is_sorted_tagged(tag_lists(rank_lists@), tagged_views(ranks@)),
{
    let mut flat: Vec<TaggedRank> = Vec::new();
    let mut keys: Vec<i64> = Vec::new();
    let mut l: usize = 0;
    proof {
        assert(rank_lists@.take(0) =~= Seq::<Vec<RankListItem>>::empty());
        assert(tagged_views(flat@) =~= Seq::<TaggedView>::empty());
        assert(keys@ =~= tagged_keys(tagged_views(flat@)));
    }
    while l < rank_lists.len()
        invariant
            l <= rank_lists@.len(),
            tagged_views(flat@) == tag_lists(rank_lists@.take(l as int)),
            keys@ == tagged_keys(tagged_views(flat@)),
        decreases rank_lists@.len() - l,
    {
        let list = &rank_lists[l];
        let ghost before = tag_lists(rank_lists@.take(l as int));
        proof {
            assert(rank_lists@.take(l + 1).drop_last() =~= rank_lists@.take(l as int));
            assert(rank_lists@.take(l + 1).last() == rank_lists@[l as int]);
            assert(before + tag_list(list@, l as nat).take(0) =~= before);
        }
        let mut k: usize = 0;
        while k < list.len()
            invariant
                k <= list@.len(),
                tagged_views(flat@) == before + tag_list(list@, l as nat).take(k as int),
                keys@ == tagged_keys(tagged_views(flat@)),
            decreases list@.len() - k,
        {
            let ghost held = tagged_views(flat@);
            flat.push(
                TaggedRank { list_index: l, analyte: list[k].analyte.clone(), rank: list[k].rank },
            );
            keys.push(list[k].rank);
            proof {
                assert(tagged_views(flat@) =~= held.push(flat@[flat@.len() - 1]@));
                assert(tag_list(list@, l as nat).take(k + 1) =~= tag_list(list@, l as nat).take(
                    k as int,
                ).push(tag_list(list@, l as nat)[k as int]));
                assert(tagged_views(flat@) =~= before + tag_list(list@, l as nat).take(k + 1));
                assert(keys@ =~= tagged_keys(tagged_views(flat@)));
            }
            k += 1;
        }
        proof {
            assert(tag_list(list@, l as nat).take(list@.len() as int) =~= tag_list(
                list@,
                l as nat,
            ));
        }
        l += 1;
    }
    proof {
        assert(rank_lists@.take(rank_lists@.len() as int) =~= rank_lists@);
    }
    let order = descending_order(&keys);
    let n = order.len();
    let mut ranks: Vec<TaggedRank> = Vec::new();
    let mut j: usize = 0;
    while j < n
        invariant
            n == order@.len(),
            n == flat@.len(),
            j <= n,
            within(order@, n as nat),
            ranks@.len() == j,
            forall|i: int| 0 <= i < j ==> (#[trigger] ranks@[i])@ == flat@[order@[i] as int]@,
        decreases n - j,
    {
        let source = &flat[order[j]];
        ranks.push(
            TaggedRank {
                list_index: source.list_index,
                analyte: source.analyte.clone(),
                rank: source.rank,
            },
        );
        j += 1;
    }
    proof {
        let input = tag_lists(rank_lists@);
        let output = tagged_views(ranks@);
        assert(is_descending_order(tagged_keys(input), order@));
        assert forall|i: int| 0 <= i < output.len() implies (#[trigger] output[i])
            == input[order@[i] as int] by {
            assert(ranks@[i]@ == flat@[order@[i] as int]@);
            assert(tagged_views(flat@)[order@[i] as int] == flat@[order@[i] as int]@);
        }
    }
    ranks
}

/// Several rank lists made ready for one analysis.
#[derive(Debug)]
pub struct IntegratedInput {
    /// The items of all lists, largest score first.
    pub ranks: Vec<TaggedRank>,
    /// A thousand permutations of the positions of `ranks`.
    pub permutations: Vec<Vec<usize>>,
}

/// Prepares the integrated analysis of several rank lists: merges the
/// lists into one ranking and draws a thousand permutations of it. It fails
/// only where the operating system yields no entropy.
pub fn integrated_gsea(
    rank_lists: &Vec<Vec<RankListItem>>,
) -> (out: Result<IntegratedInput, WebGestaltError>)
    ensures
        match out {
            Ok(input) => {
                &&& is_sorted_tagged(tag_lists(rank_lists@), tagged_views(input.ranks@))
                &&& is_permutation_table(input.permutations@, 1000, input.ranks@.len() as nat)
            },
            Err(WebGestaltError::IOError(_)) => true,
            Err(_) => false,
        },
{
    let ranks = merge_ranks(rank_lists);
    match make_permutations(1000, ranks.len()) {
        Ok(permutations) => Ok(IntegratedInput { ranks, permutations }),
        Err(e) => Err(e),
    }
}

} // verus!
