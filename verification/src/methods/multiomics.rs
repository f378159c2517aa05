//! Combining several lists, several set collections and several runs.

use ahash::AHashMap;
use ahash::AHashSet;
use vstd::prelude::*;
use crate::names::index_map_get;
use crate::names::index_map_insert;
use crate::names::index_map_new;
use crate::names::map_indices;
use crate::methods::gsea::arrange;
use crate::methods::gsea::is_sorted_rank_list;
use crate::methods::gsea::keys_of;
use crate::methods::gsea::rank_keys;
use crate::methods::gsea::rearranged;
use crate::methods::gsea::sort_rank_list;
use crate::methods::gsea::farther;
use crate::methods::gsea::GSEAConfig;
use crate::methods::gsea::GSEAResult;
use crate::methods::gsea::RankListItem;
use crate::names::names_of;
use crate::order::ascending_order;
use crate::order::is_ascending_order;
use crate::order::magnitude;
use crate::methods::ora::get_ora;
use crate::methods::ora::ORAConfig;
use crate::methods::ora::PartialORAResult;
use crate::names::set_names;
use crate::stat::benjamini_hochberg;
use crate::stat::is_step_up;
use crate::readers::utils::item_views;
use crate::readers::utils::Item;
use crate::StatisticsError;
use crate::WebGestaltError;
use crate::readers::utils::ItemView;

verus! {

/// How several lists are brought into one analysis.
#[derive(Debug, Clone, Copy)]
pub enum MultiOmicsMethod {
    /// Keep, for each analyte, the score farthest from zero in any list.
    Max(NormalizationMethod),
    /// Keep, for each analyte, the mean of its scores in all lists.
    Mean(NormalizationMethod),
    /// Run each list on its own and combine the p-values.
    Meta(MetaAnalysisMethod),
}

/// How p-values of several runs are combined.
#[derive(Debug, Clone, Copy, PartialEq, Eq, Structural)]
pub enum MetaAnalysisMethod {
    Stouffer,
    Fisher,
}

/// The kind of analysis.
#[derive(Debug, Clone, Copy, PartialEq, Eq, Structural)]
pub enum AnalysisType {
    /// Gene set enrichment analysis.
    GSEA,
    /// Over-representation analysis.
    ORA,
}

/// How the scores of a list are normalised before lists are combined.
#[derive(Debug, Clone, Copy, PartialEq, Eq, Structural)]
pub enum NormalizationMethod {
    MedianRank,
    MedianValue,
    MeanValue,
    /// Scores are taken as they are.
    Unnormalized,
}

/// The sets of several collections, one collection after the other.
pub open spec fn all_items(gmts: Seq<Vec<Item>>) -> Seq<ItemView>
    decreases gmts.len(),
{
    if gmts.len() == 0 {
        Seq::empty()
    } else {
        all_items(gmts.drop_last()) + item_views(gmts.last()@)
    }
}

/// The first position of a set with this identifier, or -1.
pub open spec fn index_of_id(sets: Seq<ItemView>, id: Seq<char>) -> int
    decreases sets.len(),
{
    if sets.len() == 0 {
        -1
    } else {
        let earlier = index_of_id(sets.drop_last(), id);
        if earlier >= 0 {
            earlier
        } else if sets.last().id == id {
            sets.len() - 1
        } else {
            -1
        }
    }
}

/// `index_of_id` names the first set with the identifier, and -1 where no
/// set has it.
pub proof fn lemma_index_of_id(sets: Seq<ItemView>, id: Seq<char>)
    ensures
        -1 <= index_of_id(sets, id) < sets.len(),
        index_of_id(sets, id) >= 0 ==> sets[index_of_id(sets, id)].id == id,
        forall|j: int|
            0 <= j < sets.len() && (index_of_id(sets, id) < 0 || j < index_of_id(sets, id))
                ==> (#[trigger] sets[j]).id != id,
    decreases sets.len(),
{
    if sets.len() > 0 {
        lemma_index_of_id(sets.drop_last(), id);
        let earlier = index_of_id(sets.drop_last(), id);
        assert forall|j: int|
            0 <= j < sets.len() && (index_of_id(sets, id) < 0 || j < index_of_id(
                sets,
                id,
            )) implies (#[trigger] sets[j]).id != id by {
            if j < sets.len() - 1 {
                assert(sets.drop_last()[j] == sets[j]);
            }
        }
        if earlier >= 0 {
            assert(sets.drop_last()[earlier] == sets[earlier]);
        }
    }
}

/// One more set taken into a union: its members join the set that has its
/// identifier, or it becomes a new last set.
pub open spec fn absorb(sets: Seq<ItemView>, item: ItemView) -> Seq<ItemView> {
    let at = index_of_id(sets, item.id);
    if at >= 0 {
        sets.update(
            at,
            ItemView { id: sets[at].id, url: sets[at].url, parts: sets[at].parts + item.parts },
        )
    } else {
        sets.push(item)
    }
}

/// The union of a sequence of sets by identifier: sets in the order in
/// which their identifiers first occur, each with the reference of its first
/// occurrence and the members of all its occurrences, in order.
pub open spec fn merged(items: Seq<ItemView>) -> Seq<ItemView>
    decreases items.len(),
{
    if items.len() == 0 {
        Seq::empty()
    } else {
        absorb(merged(items.drop_last()), items.last())
    }
}

/// No two sets share an identifier.
pub open spec fn distinct_ids(sets: Seq<ItemView>) -> bool {
    forall|a: int, b: int|
        0 <= a < b < sets.len() ==> (#[trigger] sets[a]).id != (#[trigger] sets[b]).id
}

/// Taking a set into a union keeps the identifiers distinct.
pub proof fn lemma_absorb_distinct(sets: Seq<ItemView>, item: ItemView)
    requires
        distinct_ids(sets),
    ensures
        distinct_ids(absorb(sets, item)),
{
    lemma_index_of_id(sets, item.id);
}

/// A union holds no identifier twice.
pub proof fn lemma_merged_distinct(items: Seq<ItemView>)
    ensures
        distinct_ids(merged(items)),
    decreases items.len(),
{
    if items.len() > 0 {
        lemma_merged_distinct(items.drop_last());
        lemma_absorb_distinct(merged(items.drop_last()), items.last());
    }
}

/// The union of sets whose identifiers are distinct is those sets,
/// unchanged and in their order.
pub proof fn lemma_merged_of_distinct(items: Seq<ItemView>)
    requires
        distinct_ids(items),
    ensures
        merged(items) == items,
    decreases items.len(),
{
    if items.len() > 0 {
        let front = items.drop_last();
        assert(distinct_ids(front)) by {
            assert forall|a: int, b: int| 0 <= a < b < front.len() implies (#[trigger] front[a]).id
                != (#[trigger] front[b]).id by {
                assert(front[a] == items[a]);
                assert(front[b] == items[b]);
            }
        }
        lemma_merged_of_distinct(front);
        lemma_index_of_id(front, items.last().id);
        if index_of_id(front, items.last().id) >= 0 {
            let at = index_of_id(front, items.last().id);
            assert(front[at] == items[at]);
            assert(items[at].id != items[items.len() - 1].id);
        }
        assert(front.push(items.last()) =~= items);
    } else {
        assert(merged(items) =~= items);
    }
}

/// The union of a single collection whose identifiers are distinct is that
/// collection.
pub proof fn lemma_union_of_one(gmt: Vec<Item>)
    requires
        distinct_ids(item_views(gmt@)),
    ensures
        merged(all_items(seq![gmt])) == item_views(gmt@),
{
    let gmts = seq![gmt];
    assert(gmts.drop_last() =~= Seq::<Vec<Item>>::empty());
    assert(all_items(gmts.drop_last()) =~= Seq::<ItemView>::empty());
    assert(all_items(gmts) =~= item_views(gmt@));
    lemma_merged_of_distinct(item_views(gmt@));
}

/// Taking the union of a union changes nothing.
pub proof fn lemma_union_idempotent(items: Seq<ItemView>)
    ensures
        merged(merged(items)) == merged(items),
{
    lemma_merged_distinct(items);
    lemma_merged_of_distinct(merged(items));
}

/// `index` finds each set of `sets` by its identifier, and nothing else.
pub open spec fn indexes(index: Map<Seq<char>, usize>, sets: Seq<ItemView>) -> bool {
    &&& forall|i: int|
        0 <= i < sets.len() ==> index.dom().contains((#[trigger] sets[i]).id) && index[sets[i].id]
            == i
    &&& forall|id: Seq<char>| #[trigger]
        index.dom().contains(id) ==> index[id] < sets.len() && sets[index[id] as int].id == id
}

/// Folds several collections of sets into one, by identifier. The sets
/// come in the order in which their identifiers first occur; the reference
/// of the first occurrence is kept, and the members of all occurrences are
/// joined in order, repeats included.
pub fn combine_gmts(gmts: &Vec<Vec<Item>>) -> (combined: Vec<Item>)
    ensures
        item_views(combined@) == merged(all_items(gmts@)),
{
    let mut index: AHashMap<String, usize> = index_map_new();
    let mut combined: Vec<Item> = Vec::new();
    let mut g: usize = 0;
    proof {
        assert(gmts@.take(0) =~= Seq::<Vec<Item>>::empty());
        assert(item_views(combined@) =~= Seq::<ItemView>::empty());
    }
    while g < gmts.len()
        invariant
            g <= gmts@.len(),
            item_views(combined@) == merged(all_items(gmts@.take(g as int))),
            indexes(map_indices(index), item_views(combined@)),
        decreases gmts@.len() - g,
    {
        let gmt = &gmts[g];
        let ghost before = all_items(gmts@.take(g as int));
        proof {
            assert(gmts@.take(g + 1).drop_last() =~= gmts@.take(g as int));
            assert(gmts@.take(g + 1).last() == gmts@[g as int]);
            assert(item_views(gmt@).take(0) =~= Seq::<ItemView>::empty());
            assert(before + item_views(gmt@).take(0) =~= before);
        }
        let mut k: usize = 0;
        while k < gmt.len()
            invariant
                k <= gmt@.len(),
                item_views(combined@) == merged(before + item_views(gmt@).take(k as int)),
                indexes(map_indices(index), item_views(combined@)),
            decreases gmt@.len() - k,
        {
            let item = &gmt[k];
            let ghost seen = before + item_views(gmt@).take(k as int);
            let ghost sets = item_views(combined@);
            proof {
                let grown = before + item_views(gmt@).take(k + 1);
                assert(grown.drop_last() =~= seen);
                assert(grown.last() == item@);
                lemma_index_of_id(sets, item@.id);
                lemma_merged_distinct(seen);
            }
            match index_map_get(&index, &item.id) {
                Some(at) => {
                    proof {
                        assert(sets[at as int].id == item@.id);
                        assert(index_of_id(sets, item@.id) == at);
                    }
                    let mut m: usize = 0;
                    while m < item.parts.len()
                        invariant
                            m <= item.parts@.len(),
                            at < combined@.len(),
                            combined@.len() == sets.len(),
                            item_views(combined@) =~= sets.update(
                                at as int,
                                ItemView {
                                    id: sets[at as int].id,
                                    url: sets[at as int].url,
                                    parts: sets[at as int].parts + names_of(item.parts@).take(
                                        m as int,
                                    ),
                                },
                            ),
                        decreases item.parts@.len() - m,
                    {
                        let ghost old_combined = combined@;
                        let ghost old_parts = combined@[at as int].parts@;
                        combined[at].parts.push(item.parts[m].clone());
                        proof {
                            assert(names_of(item.parts@).take(m + 1) =~= names_of(
                                item.parts@,
                            ).take(m as int).push(item.parts@[m as int]@));
                            assert(names_of(combined@[at as int].parts@) =~= names_of(
                                old_parts,
                            ).push(item.parts@[m as int]@));
                            assert(item_views(old_combined)[at as int] == old_combined[at as int]@);
                            assert forall|j: int| 0 <= j < combined@.len() && j != at implies (
                            #[trigger] combined@[j])@ == sets[j] by {
                                assert(item_views(old_combined)[j] == old_combined[j]@);
                            }
                        }
                        m += 1;
                    }
                    proof {
                        assert(names_of(item.parts@).take(item.parts@.len() as int) =~= names_of(
                            item.parts@,
                        ));
                        assert(item_views(combined@) =~= absorb(sets, item@));
                    }
                },
                None => {
                    proof {
                        if index_of_id(sets, item@.id) >= 0 {
                            let at = index_of_id(sets, item@.id);
                            assert(map_indices(index).dom().contains(sets[at].id));
                        }
                    }
                    index_map_insert(&mut index, item.id.clone(), combined.len());
                    combined.push(item.duplicate());
                    proof {
                        assert(item_views(combined@) =~= sets.push(item@));
                    }
                },
            }
            k += 1;
        }
        proof {
            assert(item_views(gmt@).take(gmt@.len() as int) =~= item_views(gmt@));
        }
        g += 1;
    }
    proof {
        assert(gmts@.take(gmts@.len() as int) =~= gmts@);
    }
    combined
}

/// One occurrence of a name with a key, as characters and a number.
pub struct Occurrence {
    pub name: Seq<char>,
    pub key: i64,
}

/// A name with the keys of all its occurrences, in order.
pub struct GroupView {
    pub name: Seq<char>,
    pub keys: Seq<i64>,
}

/// An analyte with the score keys of all its occurrences, in order.
#[derive(Debug)]
pub struct AnalyteScores {
    pub analyte: String,
    pub scores: Vec<i64>,
}

impl View for AnalyteScores {
    type V = GroupView;

    open spec fn view(&self) -> GroupView {
        GroupView { name: self.analyte@, keys: self.scores@ }
    }
}

/// The occurrences that a list holds.
pub open spec fn list_occurrences(list: Seq<RankListItem>) -> Seq<Occurrence> {
    Seq::new(list.len(), |i: int| Occurrence { name: list[i].analyte@, key: list[i].rank })
}

/// The occurrences of several lists, one list after the other.
pub open spec fn occurrences(lists: Seq<Vec<RankListItem>>) -> Seq<Occurrence>
    decreases lists.len(),
{
    if lists.len() == 0 {
        Seq::empty()
    } else {
        occurrences(lists.drop_last()) + list_occurrences(lists.last()@)
    }
}

/// The views of a list of groups.
pub open spec fn group_views(groups: Seq<AnalyteScores>) -> Seq<GroupView> {
    Seq::new(groups.len(), |i: int| groups[i]@)
}

/// The first position of a group with this name, or -1.
pub open spec fn index_of_name(groups: Seq<GroupView>, name: Seq<char>) -> int
    decreases groups.len(),
{
    if groups.len() == 0 {
        -1
    } else {
        let earlier = index_of_name(groups.drop_last(), name);
        if earlier >= 0 {
            earlier
        } else if groups.last().name == name {
            groups.len() - 1
        } else {
            -1
        }
    }
}

/// `index_of_name` names the first group with the name, and -1 where no
/// group has it.
pub proof fn lemma_index_of_name(groups: Seq<GroupView>, name: Seq<char>)
    ensures
        -1 <= index_of_name(groups, name) < groups.len(),
        index_of_name(groups, name) >= 0 ==> groups[index_of_name(groups, name)].name == name,
        forall|j: int|
            0 <= j < groups.len() && (index_of_name(groups, name) < 0 || j < index_of_name(
                groups,
                name,
            )) ==> (#[trigger] groups[j]).name != name,
    decreases groups.len(),
{
    if groups.len() > 0 {
        lemma_index_of_name(groups.drop_last(), name);
        let earlier = index_of_name(groups.drop_last(), name);
        assert forall|j: int|
            0 <= j < groups.len() && (index_of_name(groups, name) < 0 || j < index_of_name(
                groups,
                name,
            )) implies (#[trigger] groups[j]).name != name by {
            if j < groups.len() - 1 {
                assert(groups.drop_last()[j] == groups[j]);
            }
        }
        if earlier >= 0 {
            assert(groups.drop_last()[earlier] == groups[earlier]);
        }
    }
}

/// One more occurrence taken into the groups: its key joins the group of
/// its name, or it starts a new last group.
pub open spec fn add_occurrence(groups: Seq<GroupView>, o: Occurrence) -> Seq<GroupView> {
    let at = index_of_name(groups, o.name);
    if at >= 0 {
        groups.update(at, GroupView { name: groups[at].name, keys: groups[at].keys.push(o.key) })
    } else {
        groups.push(GroupView { name: o.name, keys: seq![o.key] })
    }
}

/// The occurrences grouped by name: groups in the order in which their
/// names first occur, each with the keys of its occurrences in order.
pub open spec fn grouped(occ: Seq<Occurrence>) -> Seq<GroupView>
    decreases occ.len(),
{
    if occ.len() == 0 {
        Seq::empty()
    } else {
        add_occurrence(grouped(occ.drop_last()), occ.last())
    }
}

/// No two groups share a name, and no group is empty.
pub open spec fn proper_groups(groups: Seq<GroupView>) -> bool {
    &&& forall|a: int, b: int|
        0 <= a < b < groups.len() ==> (#[trigger] groups[a]).name != (#[trigger] groups[b]).name
    &&& forall|a: int| 0 <= a < groups.len() ==> (#[trigger] groups[a]).keys.len() > 0
}

/// Grouping yields distinct names and no empty group.
pub proof fn lemma_grouped_proper(occ: Seq<Occurrence>)
    ensures
        proper_groups(grouped(occ)),
    decreases occ.len(),
{
    if occ.len() > 0 {
        lemma_grouped_proper(occ.drop_last());
        lemma_index_of_name(grouped(occ.drop_last()), occ.last().name);
    }
}

/// `index` finds each group by its name, and nothing else.
pub open spec fn indexes_groups(index: Map<Seq<char>, usize>, groups: Seq<GroupView>) -> bool {
    &&& forall|i: int|
        0 <= i < groups.len() ==> index.dom().contains((#[trigger] groups[i]).name)
            && index[groups[i].name] == i
    &&& forall|name: Seq<char>| #[trigger]
        index.dom().contains(name) ==> index[name] < groups.len()
            && groups[index[name] as int].name == name
}

/// Groups the items of several lists by analyte. The groups come in the
/// order in which the analytes first occur, and each holds the score keys of
/// all occurrences of its analyte, in the order of the lists.
pub fn group_scores(lists: &Vec<Vec<RankListItem>>) -> (groups: Vec<AnalyteScores>)
    ensures
        group_views(groups@) == grouped(occurrences(lists@)),
{
    let mut index: AHashMap<String, usize> = index_map_new();
    let mut groups: Vec<AnalyteScores> = Vec::new();
    let mut l: usize = 0;
    proof {
        assert(lists@.take(0) =~= Seq::<Vec<RankListItem>>::empty());
        assert(group_views(groups@) =~= Seq::<GroupView>::empty());
    }
    while l < lists.len()
        invariant
            l <= lists@.len(),
            group_views(groups@) == grouped(occurrences(lists@.take(l as int))),
            indexes_groups(map_indices(index), group_views(groups@)),
        decreases lists@.len() - l,
    {
        let list = &lists[l];
        let ghost before = occurrences(lists@.take(l as int));
        proof {
            assert(lists@.take(l + 1).drop_last() =~= lists@.take(l as int));
            assert(lists@.take(l + 1).last() == lists@[l as int]);
            assert(before + list_occurrences(list@).take(0) =~= before);
        }
        let mut k: usize = 0;
        while k < list.len()
            invariant
                k <= list@.len(),
                group_views(groups@) == grouped(before + list_occurrences(list@).take(k as int)),
                indexes_groups(map_indices(index), group_views(groups@)),
            decreases list@.len() - k,
        {
            let item = &list[k];
            let ghost o = Occurrence { name: item.analyte@, key: item.rank };
            let ghost seen = before + list_occurrences(list@).take(k as int);
            let ghost views = group_views(groups@);
            proof {
                let grown = before + list_occurrences(list@).take(k + 1);
                assert(grown.drop_last() =~= seen);
                assert(grown.last() == o);
                lemma_index_of_name(views, o.name);
                lemma_grouped_proper(seen);
            }
            match index_map_get(&index, &item.analyte) {
                Some(at) => {
                    proof {
                        assert(views[at as int].name == o.name);
                        assert(index_of_name(views, o.name) == at);
                    }
                    let ghost old_groups = groups@;
                    groups[at].scores.push(item.rank);
                    proof {
                        assert(group_views(old_groups)[at as int] == old_groups[at as int]@);
                        assert forall|j: int| 0 <= j < groups@.len() && j != at implies (
                        #[trigger] groups@[j])@ == views[j] by {
                            assert(group_views(old_groups)[j] == old_groups[j]@);
                        }
                        assert(group_views(groups@) =~= add_occurrence(views, o));
                    }
                },
                None => {
                    proof {
                        if index_of_name(views, o.name) >= 0 {
                            let at = index_of_name(views, o.name);
                            assert(map_indices(index).dom().contains(views[at].name));
                        }
                    }
                    index_map_insert(&mut index, item.analyte.clone(), groups.len());
                    let mut scores: Vec<i64> = Vec::new();
                    scores.push(item.rank);
                    groups.push(AnalyteScores { analyte: item.analyte.clone(), scores });
                    proof {
                        assert(groups@.last()@.keys =~= seq![o.key]);
                        assert(group_views(groups@) =~= views.push(
                            GroupView { name: o.name, keys: seq![o.key] },
                        ));
                    }
                },
            }
            k += 1;
        }
        proof {
            assert(list_occurrences(list@).take(list@.len() as int) =~= list_occurrences(list@));
        }
        l += 1;
    }
    proof {
        assert(lists@.take(lists@.len() as int) =~= lists@);
    }
    groups
}

/// The key farthest from zero, the first one among equals; zero for no
/// keys.
pub open spec fn farthest(keys: Seq<i64>) -> i64
    decreases keys.len(),
{
    if keys.len() == 0 {
        0
    } else {
        let earlier = farthest(keys.drop_last());
        if magnitude(keys.last()) > magnitude(earlier) {
            keys.last()
        } else {
            earlier
        }
    }
}

/// The farthest key is one of the keys and no key is farther from zero.
pub proof fn lemma_farthest(keys: Seq<i64>)
    requires
        keys.len() > 0,
    ensures
        keys.contains(farthest(keys)),
        forall|j: int| 0 <= j < keys.len() ==> magnitude(#[trigger] keys[j]) <= magnitude(
            farthest(keys),
        ),
    decreases keys.len(),
{
    let front = keys.drop_last();
    if front.len() > 0 {
        lemma_farthest(front);
        assert forall|j: int| 0 <= j < keys.len() implies magnitude(#[trigger] keys[j])
            <= magnitude(farthest(keys)) by {
            if j < front.len() {
                assert(front[j] == keys[j]);
            }
        }
        if farthest(keys) == farthest(front) {
            let w = choose|w: int| 0 <= w < front.len() && front[w] == farthest(front);
            assert(keys[w] == farthest(keys));
        } else {
            assert(keys[keys.len() - 1] == farthest(keys));
        }
    } else {
        assert(farthest(front) == 0);
        assert(keys[0] == farthest(keys));
    }
}

/// Finds the score farthest from zero, the first one among equals.
pub fn farthest_score(scores: &Vec<i64>) -> (best: i64)
    ensures
        best == farthest(scores@),
{
    let mut best: i64 = 0;
    let mut i: usize = 0;
    proof {
        assert(scores@.take(0) =~= Seq::<i64>::empty());
    }
    while i < scores.len()
        invariant
            i <= scores@.len(),
            best == farthest(scores@.take(i as int)),
        decreases scores@.len() - i,
    {
        proof {
            assert(scores@.take(i + 1).drop_last() =~= scores@.take(i as int));
        }
        if farther(scores[i], best) {
            best = scores[i];
        }
        i += 1;
    }
    proof {
        assert(scores@.take(scores@.len() as int) =~= scores@);
    }
    best
}

/// For each name, in the order of first occurrence, the key of its
/// occurrences that is farthest from zero.
pub open spec fn max_of(occ: Seq<Occurrence>) -> Seq<Occurrence> {
    Seq::new(
        grouped(occ).len(),
        |i: int| Occurrence { name: grouped(occ)[i].name, key: farthest(grouped(occ)[i].keys) },
    )
}

/// Each occurrence as a group of its own.
pub open spec fn singles(occ: Seq<Occurrence>) -> Seq<GroupView> {
    Seq::new(occ.len(), |i: int| GroupView { name: occ[i].name, keys: seq![occ[i].key] })
}

/// No two occurrences share a name.
pub open spec fn distinct_names(occ: Seq<Occurrence>) -> bool {
    forall|a: int, b: int|
        0 <= a < b < occ.len() ==> (#[trigger] occ[a]).name != (#[trigger] occ[b]).name
}

/// Where no name occurs twice, grouping leaves each occurrence alone, in
/// place.
pub proof fn lemma_grouped_of_distinct(occ: Seq<Occurrence>)
    requires
        distinct_names(occ),
    ensures
        grouped(occ) == singles(occ),
    decreases occ.len(),
{
    if occ.len() > 0 {
        let front = occ.drop_last();
        assert(distinct_names(front)) by {
            assert forall|a: int, b: int| 0 <= a < b < front.len() implies (#[trigger] front[a]).name
                != (#[trigger] front[b]).name by {
                assert(front[a] == occ[a]);
                assert(front[b] == occ[b]);
            }
        }
        lemma_grouped_of_distinct(front);
        lemma_index_of_name(singles(front), occ.last().name);
        if index_of_name(singles(front), occ.last().name) >= 0 {
            let at = index_of_name(singles(front), occ.last().name);
            assert(front[at] == occ[at]);
            assert(occ[at].name != occ[occ.len() - 1].name);
        }
        assert(singles(front).push(
            GroupView { name: occ.last().name, keys: seq![occ.last().key] },
        ) =~= singles(occ));
    } else {
        assert(grouped(occ) =~= singles(occ));
    }
}

/// The names of the groups are the names that occur: nothing is lost and
/// nothing is added.
pub proof fn lemma_grouped_names(occ: Seq<Occurrence>, name: Seq<char>)
    ensures
        index_of_name(grouped(occ), name) >= 0 <==> exists|k: int|
            0 <= k < occ.len() && (#[trigger] occ[k]).name == name,
    decreases occ.len(),
{
    if occ.len() > 0 {
        let front = occ.drop_last();
        let groups = grouped(front);
        lemma_grouped_names(front, name);
        lemma_index_of_name(groups, name);
        lemma_index_of_name(groups, occ.last().name);
        lemma_index_of_name(grouped(occ), name);
        if index_of_name(grouped(occ), name) >= 0 {
            let at = index_of_name(grouped(occ), name);
            if index_of_name(groups, name) >= 0 {
                let k = choose|k: int| 0 <= k < front.len() && (#[trigger] front[k]).name == name;
                assert(occ[k] == front[k]);
            } else {
                if at < groups.len() {
                    assert(groups[at].name == grouped(occ)[at].name);
                }
                assert(occ[occ.len() - 1].name == name);
            }
        }
        if exists|k: int| 0 <= k < occ.len() && (#[trigger] occ[k]).name == name {
            let k = choose|k: int| 0 <= k < occ.len() && (#[trigger] occ[k]).name == name;
            if k < front.len() {
                assert(front[k] == occ[k]);
                let at = index_of_name(groups, name);
                assert(grouped(occ)[at].name == name);
            } else {
                let at = index_of_name(groups, name);
                if at >= 0 {
                    assert(grouped(occ)[at].name == name);
                } else {
                    assert(grouped(occ)[groups.len() as int].name == name);
                }
            }
        }
    }
}

/// Keeping the farthest key of each name a second time changes nothing.
pub proof fn lemma_max_idempotent(occ: Seq<Occurrence>)
    ensures
        max_of(max_of(occ)) == max_of(occ),
{
    let m = max_of(occ);
    lemma_grouped_proper(occ);
    assert(distinct_names(m));
    lemma_grouped_of_distinct(m);
    assert forall|i: int| 0 <= i < m.len() implies (#[trigger] max_of(m)[i]) == m[i] by {
        let keys = seq![m[i].key];
        assert(keys.drop_last() =~= Seq::<i64>::empty());
        assert(farthest(keys.drop_last()) == 0);
        assert(farthest(keys) == m[i].key);
    }
    assert(max_of(m) =~= m);
}

/// Combines lists by keeping, for each analyte, the score farthest from
/// zero among all its occurrences, the first one among equals. The analytes
/// come in the order in which they first occur.
pub fn max_combine(lists: &Vec<Vec<RankListItem>>) -> (combined: Vec<RankListItem>)
    ensures
        list_occurrences(combined@) == max_of(occurrences(lists@)),
{
    let groups = group_scores(lists);
    let mut combined: Vec<RankListItem> = Vec::new();
    let mut i: usize = 0;
    while i < groups.len()
        invariant
            i <= groups@.len(),
            group_views(groups@) == grouped(occurrences(lists@)),
            combined@.len() == i,
            forall|j: int|
                0 <= j < i ==> (#[trigger] combined@[j]).analyte@ == groups@[j].analyte@
                    && combined@[j].rank == farthest(groups@[j].scores@),
        decreases groups@.len() - i,
    {
        let best = farthest_score(&groups[i].scores);
        combined.push(RankListItem { analyte: groups[i].analyte.clone(), rank: best });
        i += 1;
    }
    proof {
        assert forall|j: int| 0 <= j < combined@.len() implies (#[trigger] list_occurrences(
            combined@,
        )[j]) == max_of(occurrences(lists@))[j] by {
            assert(group_views(groups@)[j] == groups@[j]@);
        }
        assert(list_occurrences(combined@) =~= max_of(occurrences(lists@)));
    }
    combined
}

/// Combines lists by collecting, for each analyte, the scores of all its
/// occurrences; the combined score of an analyte is the mean of its group.
pub fn mean_combine(lists: &Vec<Vec<RankListItem>>) -> (groups: Vec<AnalyteScores>)
    ensures
        group_views(groups@) == grouped(occurrences(lists@)),
{
    group_scores(lists)
}

/// Combines normalised lists into one. For every analyte that occurs, in
/// the order of first occurrence, the result holds the scores that the
/// method keeps: with `Max` the one farthest from zero, with `Mean` all of
/// them. The combined score of an analyte is the mean of what is kept.
pub fn combine_lists(
    lists: &Vec<Vec<RankListItem>>,
    combination_method: MultiOmicsMethod,
) -> (groups: Vec<AnalyteScores>)
    requires
        !(combination_method is Meta),
    ensures
        combination_method is Max ==> group_views(groups@) == singles(
            max_of(occurrences(lists@)),
        ),
        combination_method is Mean ==> group_views(groups@) == grouped(occurrences(lists@)),
{
    match combination_method {
        MultiOmicsMethod::Max(_) => {
            let kept = max_combine(lists);
            let mut groups: Vec<AnalyteScores> = Vec::new();
            let mut i: usize = 0;
            while i < kept.len()
                invariant
                    i <= kept@.len(),
                    groups@.len() == i,
                    forall|j: int|
                        0 <= j < i ==> (#[trigger] groups@[j])@ == singles(
                            list_occurrences(kept@),
                        )[j],
                decreases kept@.len() - i,
            {
                let mut scores: Vec<i64> = Vec::new();
                scores.push(kept[i].rank);
                groups.push(AnalyteScores { analyte: kept[i].analyte.clone(), scores });
                proof {
                    assert(groups@[i as int]@.keys =~= seq![kept@[i as int].rank]);
                }
                i += 1;
            }
            proof {
                assert(group_views(groups@) =~= singles(list_occurrences(kept@)));
            }
            groups
        },
        MultiOmicsMethod::Mean(_) => mean_combine(lists),
        MultiOmicsMethod::Meta(_) => Vec::new(),
    }
}

/// Combining a single list whose analytes are distinct keeps every item
/// with its score, in place, whether the farthest score or all scores of an
/// analyte are kept.
pub proof fn lemma_combine_single_list(list: Vec<RankListItem>)
    requires
        distinct_names(list_occurrences(list@)),
    ensures
        grouped(occurrences(seq![list])) == singles(list_occurrences(list@)),
        max_of(occurrences(seq![list])) == list_occurrences(list@),
{
    let lists = seq![list];
    let occ = list_occurrences(list@);
    assert(lists.drop_last() =~= Seq::<Vec<RankListItem>>::empty());
    assert(occurrences(lists.drop_last()) =~= Seq::<Occurrence>::empty());
    assert(occurrences(lists) =~= occ);
    lemma_grouped_of_distinct(occ);
    assert forall|i: int| 0 <= i < occ.len() implies (#[trigger] max_of(occ)[i]) == occ[i] by {
        let keys = seq![occ[i].key];
        assert(keys.drop_last() =~= Seq::<i64>::empty());
        assert(farthest(keys.drop_last()) == 0);
        assert(farthest(keys) == occ[i].key);
    }
    assert(max_of(occ) =~= occ);
}

/// The order in which a normalisation reads a list: as it is, by rising
/// score for ranks, by falling score for values. Items of equal score keep
/// their order.
pub open spec fn is_normalization_order(
    input: Seq<RankListItem>,
    method: NormalizationMethod,
    output: Seq<RankListItem>,
) -> bool {
    match method {
        NormalizationMethod::Unnormalized => list_occurrences(output) == list_occurrences(input),
        NormalizationMethod::MedianRank => exists|order: Seq<usize>| #[trigger]
            is_ascending_order(rank_keys(input), order) && rearranged(input, order, output),
        NormalizationMethod::MedianValue => is_sorted_rank_list(input, output),
        NormalizationMethod::MeanValue => is_sorted_rank_list(input, output),
    }
}

/// Puts a list into the order in which its normalisation reads it. The
/// new scores are then a matter of position: with `MedianRank` the score at
/// position `i` is `median_rank_score(i, m)`; with the two value methods the
/// lowest score is the last one and the middle score stands at position
/// `m / 2`.
pub fn normalize(
    list: &Vec<RankListItem>,
    method: NormalizationMethod,
) -> (ordered: Vec<RankListItem>)
    ensures
        is_normalization_order(list@, method, ordered@),
        ordered@.len() == list@.len(),
{
    match method {
        NormalizationMethod::Unnormalized => {
            let mut order: Vec<usize> = Vec::new();
            let mut i: usize = 0;
            while i < list.len()
                invariant
                    i <= list@.len(),
                    order@.len() == i,
                    forall|j: int| 0 <= j < i ==> (#[trigger] order@[j]) == j,
                decreases list@.len() - i,
            {
                order.push(i);
                i += 1;
            }
            let ordered = arrange(list, &order);
            proof {
                assert(list_occurrences(ordered@) =~= list_occurrences(list@));
            }
            ordered
        },
        NormalizationMethod::MedianRank => {
            let keys = keys_of(list);
            let order = ascending_order(&keys);
            arrange(list, &order)
        },
        NormalizationMethod::MedianValue => sort_rank_list(list),
        NormalizationMethod::MeanValue => sort_rank_list(list),
    }
}

/// The two scores that the value normalisations measure a list by.
#[derive(Debug, Clone, Copy, PartialEq, Eq, Structural)]
pub struct Anchors {
    /// The lowest score: the last one of the list.
    pub lowest: i64,
    /// The middle score: the one at half the length of the list.
    pub middle: i64,
}

/// Reads the lowest and the middle score off a list that is sorted by
/// falling score. An empty list has neither.
pub fn value_anchors(ordered: &Vec<RankListItem>) -> (anchors: Option<Anchors>)
    ensures
        ordered@.len() == 0 <==> anchors is None,
        match anchors {
            Some(a) => {
                &&& a.lowest == ordered@[ordered@.len() - 1].rank
                &&& a.middle == ordered@[(ordered@.len() / 2) as int].rank
            },
            None => true,
        },
{
    let m = ordered.len();
    if m == 0 {
        None
    } else {
        Some(Anchors { lowest: ordered[m - 1].rank, middle: ordered[m / 2].rank })
    }
}

/// A ratio with a sign. The value is `numerator / denominator`.
#[derive(Debug, Clone, Copy, PartialEq, Eq, Structural)]
pub struct SignedFraction {
    pub numerator: i128,
    pub denominator: u128,
}

/// The median-rank score of position `position` in a list of `length`
/// items: the distance from the middle of the list over half the length,
/// `(position - length / 2) / (length / 2)`, exactly.
pub fn median_rank_score(position: usize, length: usize) -> (score: SignedFraction)
    requires
        position < length,
    ensures
        score.numerator == 2 * position - length,
        score.denominator == length,
        -(score.denominator as int) <= score.numerator < score.denominator,
{
    SignedFraction {
        numerator: 2 * (position as i128) - (length as i128),
        denominator: length as u128,
    }
}

/// The p-value of one set in one run, as a key.
#[derive(Debug)]
pub struct SetP {
    pub set: String,
    pub p: i64,
}

/// The combined result of one set over several runs: the set, its combined
/// p-value and the adjusted one. A combined result holds nothing else.
#[derive(Debug)]
pub struct MetaRow {
    pub set: String,
    pub p: i64,
    pub fdr: i64,
}

/// The occurrences of sets with their p-values in one run.
pub open spec fn run_occurrences(run: Seq<SetP>) -> Seq<Occurrence> {
    Seq::new(run.len(), |i: int| Occurrence { name: run[i].set@, key: run[i].p })
}

/// The occurrences of sets with their p-values in several runs, one run
/// after the other.
pub open spec fn p_occurrences(runs: Seq<Vec<SetP>>) -> Seq<Occurrence>
    decreases runs.len(),
{
    if runs.len() == 0 {
        Seq::empty()
    } else {
        p_occurrences(runs.drop_last()) + run_occurrences(runs.last()@)
    }
}

/// Lists that hold what runs hold have the same occurrences.
pub proof fn lemma_p_occurrences(runs: Seq<Vec<SetP>>, lists: Seq<Vec<RankListItem>>)
    requires
        runs.len() == lists.len(),
        forall|j: int|
            0 <= j < runs.len() ==> list_occurrences((#[trigger] lists[j])@) == run_occurrences(
                runs[j]@,
            ),
    ensures
        occurrences(lists) == p_occurrences(runs),
    decreases runs.len(),
{
    if runs.len() > 0 {
        assert forall|j: int| 0 <= j < runs.drop_last().len() implies list_occurrences(
            (#[trigger] lists.drop_last()[j])@,
        ) == run_occurrences(runs.drop_last()[j]@) by {
            assert(lists.drop_last()[j] == lists[j]);
            assert(runs.drop_last()[j] == runs[j]);
        }
        lemma_p_occurrences(runs.drop_last(), lists.drop_last());
        assert(lists.last() == lists[lists.len() - 1]);
    }
}

/// Groups the p-values of several runs by set. The groups come in the
/// order in which the sets first occur, and each holds the p-values of its
/// set in the order of the runs.
pub fn group_p_values(runs: &Vec<Vec<SetP>>) -> (groups: Vec<AnalyteScores>)
    ensures
        group_views(groups@) == grouped(p_occurrences(runs@)),
{
    let mut lists: Vec<Vec<RankListItem>> = Vec::new();
    let mut j: usize = 0;
    while j < runs.len()
        invariant
            j <= runs@.len(),
            lists@.len() == j,
            forall|k: int|
                0 <= k < j ==> list_occurrences((#[trigger] lists@[k])@) == run_occurrences(
                    runs@[k]@,
                ),
        decreases runs@.len() - j,
    {
        let run = &runs[j];
        let mut list: Vec<RankListItem> = Vec::new();
        let mut i: usize = 0;
        while i < run.len()
            invariant
                i <= run@.len(),
                list@.len() == i,
                forall|k: int|
                    0 <= k < i ==> (#[trigger] list@[k]).analyte@ == run@[k].set@ && list@[k].rank
                        == run@[k].p,
            decreases run@.len() - i,
        {
            list.push(RankListItem { analyte: run[i].set.clone(), rank: run[i].p });
            i += 1;
        }
        proof {
            assert(list_occurrences(list@) =~= run_occurrences(run@));
        }
        lists.push(list);
        j += 1;
    }
    proof {
        lemma_p_occurrences(runs@, lists@);
    }
    group_scores(&lists)
}

/// The adjusted p-values of combined results, in order.
pub open spec fn fdr_column(rows: Seq<MetaRow>) -> Seq<i64> {
    Seq::new(rows.len(), |i: int| rows[i].fdr)
}

/// The rows are the combined results of the groups: one row for each
/// group, in order, with the set of the group, its combined p-value, and the
/// step-up adjustment of the combined p-values.
pub open spec fn is_meta_rows(
    rows: Seq<MetaRow>,
    groups: Seq<GroupView>,
    combined: Seq<i64>,
    scaled: Seq<i64>,
    cap: i64,
) -> bool {
    &&& rows.len() == groups.len()
    &&& forall|i: int|
        0 <= i < rows.len() ==> (#[trigger] rows[i]).set@ == groups[i].name && rows[i].p
            == combined[i]
    &&& is_step_up(combined, scaled, cap, fdr_column(rows))
}

/// Builds the combined results of a meta-analysis. `groups` holds the sets
/// with their p-values in the runs, `combined` the combined p-value of each
/// group, `scaled` each combined p-value times the number of groups over its
/// rank, and `cap` the key of the value one. Each row holds the set and the
/// combined p-value of its group, and the adjusted p-values are the step-up
/// adjustment of the combined ones.
pub fn meta_rows(
    groups: &Vec<AnalyteScores>,
    combined: &Vec<i64>,
    scaled: &Vec<i64>,
    cap: i64,
) -> (rows: Vec<MetaRow>)
    requires
        combined@.len() == groups@.len(),
        scaled@.len() == groups@.len(),
    ensures
        rows@.len() == groups@.len(),
        forall|i: int|
            0 <= i < rows@.len() ==> (#[trigger] rows@[i]).set@ == groups@[i].analyte@
                && rows@[i].p == combined@[i],
        is_step_up(combined@, scaled@, cap, fdr_column(rows@)),
        is_meta_rows(rows@, group_views(groups@), combined@, scaled@, cap),
{
    let adjusted = benjamini_hochberg(combined, scaled, cap);
    let mut rows: Vec<MetaRow> = Vec::new();
    let mut i: usize = 0;
    while i < groups.len()
        invariant
            i <= groups@.len(),
            adjusted@.len() == groups@.len(),
            combined@.len() == groups@.len(),
            rows@.len() == i,
            forall|k: int|
                0 <= k < i ==> (#[trigger] rows@[k]).set@ == groups@[k].analyte@ && rows@[k].p
                    == combined@[k] && rows@[k].fdr == adjusted@[k],
        decreases groups@.len() - i,
    {
        rows.push(MetaRow { set: groups[i].analyte.clone(), p: combined[i], fdr: adjusted[i] });
        i += 1;
    }
    proof {
        assert(fdr_column(rows@) =~= adjusted@);
    }
    rows
}

/// What a meta-analysis is made from, besides the runs themselves.
#[derive(Debug)]
pub struct MetaScores {
    /// For each run, the p-value of each of its sets, in the order of its
    /// results.
    pub p_values: Vec<Vec<SetP>>,
    /// The combined p-value of each distinct set, in the order in which the
    /// sets first occur.
    pub combined: Vec<i64>,
    /// Each combined p-value times the number of sets over its rank, at
    /// most one.
    pub scaled: Vec<i64>,
    /// The key of the value one.
    pub cap: i64,
}

impl MetaScores {
    /// There is one combined and one scaled value for each distinct set.
    pub open spec fn well_formed(&self) -> bool {
        &&& self.combined@.len() == grouped(p_occurrences(self.p_values@)).len()
        &&& self.scaled@.len() == self.combined@.len()
    }

    /// The rows are the combined results that these scores give: one row
    /// for each distinct set, in the order of first occurrence, with its
    /// combined p-value and the step-up adjustment of the combined p-values.
    pub open spec fn gives(&self, rows: Seq<MetaRow>) -> bool {
        is_meta_rows(
            rows,
            grouped(p_occurrences(self.p_values@)),
            self.combined@,
            self.scaled@,
            self.cap,
        )
    }
}

/// Tells whether there is one combined and one scaled value for each
/// distinct set of the runs.
pub fn check_meta_scores(scores: &MetaScores) -> (fit: bool)
    ensures
        fit == scores.well_formed(),
{
    let groups = group_p_values(&scores.p_values);
    proof {
        assert(group_views(groups@).len() == groups@.len());
    }
    scores.combined.len() == groups.len() && scores.scaled.len() == scores.combined.len()
}

/// Builds the combined results of a meta-analysis from the p-values of the
/// runs: groups them by set, and gives each distinct set its combined and
/// its adjusted p-value.
pub fn meta_analysis(scores: &MetaScores) -> (rows: Vec<MetaRow>)
    requires
        scores.well_formed(),
    ensures
        scores.gives(rows@),
{
    let groups = group_p_values(&scores.p_values);
    proof {
        assert(group_views(groups@).len() == groups@.len());
    }
    let rows = meta_rows(&groups, &scores.combined, &scores.scaled, scores.cap);
    rows
}

/// One enrichment run over a rank list.
#[derive(Debug)]
pub struct GSEAJob {
    pub gmt: Vec<Item>,
    pub rank_list: Vec<RankListItem>,
    pub config: GSEAConfig,
}

/// One over-representation run.
pub struct ORAJob {
    pub gmt: Vec<Item>,
    pub interest_list: AHashSet<String>,
    pub reference_list: AHashSet<String>,
    pub config: ORAConfig,
}

/// Several enrichment runs folded into one.
#[derive(Debug)]
pub struct CombinedGSEAJob {
    /// The union of the set collections.
    pub gmt: Vec<Item>,
    /// For each analyte the scores that the method keeps; the score of the
    /// analyte in the combined list is their mean.
    pub rank_groups: Vec<AnalyteScores>,
    /// The configuration of the first run.
    pub config: GSEAConfig,
}

/// The rank lists of the jobs.
pub open spec fn job_lists(jobs: Seq<GSEAJob>) -> Seq<Vec<RankListItem>> {
    Seq::new(jobs.len(), |i: int| jobs[i].rank_list)
}

/// The set collections of the jobs.
pub open spec fn job_gmts(jobs: Seq<GSEAJob>) -> Seq<Vec<Item>> {
    Seq::new(jobs.len(), |i: int| jobs[i].gmt)
}

/// The occurrences of lists depend on what the lists hold only.
pub proof fn lemma_occurrences_same(a: Seq<Vec<RankListItem>>, b: Seq<Vec<RankListItem>>)
    requires
        a.len() == b.len(),
        forall|i: int|
            0 <= i < a.len() ==> list_occurrences((#[trigger] a[i])@) == list_occurrences(b[i]@),
    ensures
        occurrences(a) == occurrences(b),
    decreases a.len(),
{
    if a.len() > 0 {
        assert forall|i: int| 0 <= i < a.drop_last().len() implies list_occurrences(
            (#[trigger] a.drop_last()[i])@,
        ) == list_occurrences(b.drop_last()[i]@) by {
            assert(a.drop_last()[i] == a[i]);
            assert(b.drop_last()[i] == b[i]);
        }
        lemma_occurrences_same(a.drop_last(), b.drop_last());
        assert(a.last() == a[a.len() - 1]);
    }
}

/// The sets of collections depend on what the collections hold only.
pub proof fn lemma_all_items_same(a: Seq<Vec<Item>>, b: Seq<Vec<Item>>)
    requires
        a.len() == b.len(),
        forall|i: int| 0 <= i < a.len() ==> item_views((#[trigger] a[i])@) == item_views(b[i]@),
    ensures
        all_items(a) == all_items(b),
    decreases a.len(),
{
    if a.len() > 0 {
        assert forall|i: int| 0 <= i < a.drop_last().len() implies item_views(
            (#[trigger] a.drop_last()[i])@,
        ) == item_views(b.drop_last()[i]@) by {
            assert(a.drop_last()[i] == a[i]);
            assert(b.drop_last()[i] == b[i]);
        }
        lemma_all_items_same(a.drop_last(), b.drop_last());
        assert(a.last() == a[a.len() - 1]);
    }
}

/// A copy of a rank list.
pub fn copy_rank_list(list: &Vec<RankListItem>) -> (copy: Vec<RankListItem>)
    ensures
        list_occurrences(copy@) == list_occurrences(list@),
{
    let mut copy: Vec<RankListItem> = Vec::new();
    let mut i: usize = 0;
    while i < list.len()
        invariant
            i <= list@.len(),
            copy@.len() == i,
            forall|j: int|
                0 <= j < i ==> (#[trigger] copy@[j]).analyte@ == list@[j].analyte@ && copy@[j].rank
                    == list@[j].rank,
        decreases list@.len() - i,
    {
        copy.push(RankListItem { analyte: list[i].analyte.clone(), rank: list[i].rank });
        i += 1;
    }
    proof {
        assert(list_occurrences(copy@) =~= list_occurrences(list@));
    }
    copy
}

/// A copy of a set collection.
pub fn copy_gmt(gmt: &Vec<Item>) -> (copy: Vec<Item>)
    ensures
        item_views(copy@) == item_views(gmt@),
{
    let mut copy: Vec<Item> = Vec::new();
    let mut i: usize = 0;
    while i < gmt.len()
        invariant
            i <= gmt@.len(),
            copy@.len() == i,
            forall|j: int| 0 <= j < i ==> (#[trigger] copy@[j])@ == gmt@[j]@,
        decreases gmt@.len() - i,
    {
        copy.push(gmt[i].duplicate());
        i += 1;
    }
    proof {
        assert(item_views(copy@) =~= item_views(gmt@));
    }
    copy
}

/// The runs of several jobs, for a meta-analysis.
#[derive(Debug)]
pub struct GSEARuns {
    /// The results of each job, in the order of the jobs.
    pub results: Vec<Vec<GSEAResult>>,
    /// The p-values of those results as keys, and what was combined from
    /// them.
    pub scores: MetaScores,
}

impl GSEARuns {
    /// There is one run for each job, one p-value for each result of each
    /// run, under the set of that result, and one combined and one scaled
    /// value for each distinct set.
    pub open spec fn fits(&self, jobs: Seq<GSEAJob>) -> bool {
        &&& self.results@.len() == jobs.len()
        &&& self.scores.p_values@.len() == self.results@.len()
        &&& forall|j: int|
            0 <= j < self.results@.len() ==> (#[trigger] self.scores.p_values@[j])@.len()
                == self.results@[j]@.len()
        &&& forall|j: int, i: int|
            0 <= j < self.results@.len() && 0 <= i < self.results@[j]@.len() ==> (
            #[trigger] self.scores.p_values@[j]@[i]).set@ == self.results@[j]@[i].set@
        &&& self.scores.well_formed()
    }
}

/// Tells whether runs fit a number of jobs.
pub fn check_gsea_runs(runs: &GSEARuns, jobs: &Vec<GSEAJob>) -> (fit: bool)
    ensures
        fit == runs.fits(jobs@),
{
    if runs.results.len() != jobs.len() || runs.scores.p_values.len() != runs.results.len() {
        return false;
    }
    let mut j: usize = 0;
    while j < runs.results.len()
        invariant
            j <= runs.results@.len(),
            runs.scores.p_values@.len() == runs.results@.len(),
            forall|k: int|
                0 <= k < j ==> (#[trigger] runs.scores.p_values@[k])@.len()
                    == runs.results@[k]@.len(),
            forall|k: int, i: int|
                0 <= k < j && 0 <= i < runs.results@[k]@.len() ==> (
                #[trigger] runs.scores.p_values@[k]@[i]).set@ == runs.results@[k]@[i].set@,
        decreases runs.results@.len() - j,
    {
        let results = &runs.results[j];
        let p_values = &runs.scores.p_values[j];
        if p_values.len() != results.len() {
            return false;
        }
        let mut i: usize = 0;
        while i < results.len()
            invariant
                i <= results@.len(),
                j < runs.results@.len(),
                runs.scores.p_values@.len() == runs.results@.len(),
                *results == runs.results@[j as int],
                *p_values == runs.scores.p_values@[j as int],
                p_values@.len() == results@.len(),
                forall|k: int|
                    0 <= k < i ==> (#[trigger] p_values@[k]).set@ == results@[k].set@,
            decreases results@.len() - i,
        {
            if p_values[i].set != results[i].set {
                proof {
                    assert(runs.scores.p_values@[j as int]@[i as int].set@
                        != runs.results@[j as int]@[i as int].set@);
                }
                return false;
            }
            i += 1;
        }
        j += 1;
    }
    check_meta_scores(&runs.scores)
}

/// The outcome of a meta-analysis of enrichment runs: the combined results
/// first, then the results of each run, in the order of the jobs.
#[derive(Debug)]
pub struct MetaGSEA {
    pub meta: Vec<MetaRow>,
    pub runs: Vec<Vec<GSEAResult>>,
}

/// What several enrichment jobs come to.
#[derive(Debug)]
pub enum MultiOmicsGSEA {
    /// One job that stands for all: it remains to be run.
    Combined(CombinedGSEAJob),
    /// The combined results of the runs, and the runs.
    Meta(MetaGSEA),
}

/// Brings several enrichment jobs together.
///
/// With `Max` or `Mean` the jobs are folded into one before the analysis:
/// the combined job holds the union of the set collections, the combined
/// list, and the configuration of the first job. The rank lists of the jobs
/// are taken as normalised, and `runs` is not read.
///
/// With a meta-analysis method each job is run on its own, and `runs` holds
/// what the runs gave. The outcome holds one combined result for each
/// distinct set of the runs, in the order of first occurrence, with the
/// combined p-value of the set and the step-up adjustment of the combined
/// p-values, and after them the results of each run, unchanged.
pub fn multiomic_gsea(
    jobs: &Vec<GSEAJob>,
    method: MultiOmicsMethod,
    runs: Option<GSEARuns>,
) -> (out: MultiOmicsGSEA)
    requires
        method is Meta ==> runs is Some && runs->0.fits(jobs@),
        !(method is Meta) ==> jobs@.len() > 0,
    ensures
        method is Meta <==> out is Meta,
        match out {
            MultiOmicsGSEA::Combined(job) => {
                &&& item_views(job.gmt@) == merged(all_items(job_gmts(jobs@)))
                &&& method is Max ==> group_views(job.rank_groups@) == singles(
                    max_of(occurrences(job_lists(jobs@))),
                )
                &&& method is Mean ==> group_views(job.rank_groups@) == grouped(
                    occurrences(job_lists(jobs@)),
                )
                &&& job.config == jobs@[0].config
            },
            MultiOmicsGSEA::Meta(meta) => {
                &&& runs is Some
                &&& meta.runs@ == runs->0.results@
                &&& meta.runs@.len() == jobs@.len()
                &&& runs->0.scores.gives(meta.meta@)
            },
        },
{
    match method {
        MultiOmicsMethod::Meta(_) => {
            match runs {
                Some(given) => {
                    let meta = meta_analysis(&given.scores);
                    MultiOmicsGSEA::Meta(MetaGSEA { meta, runs: given.results })
                },
                None => {
                    proof {
                        assert(false);
                    }
                    MultiOmicsGSEA::Meta(MetaGSEA { meta: Vec::new(), runs: Vec::new() })
                },
            }
        },
        _ => {
            let mut lists: Vec<Vec<RankListItem>> = Vec::new();
            let mut gmts: Vec<Vec<Item>> = Vec::new();
            let mut i: usize = 0;
            while i < jobs.len()
                invariant
                    i <= jobs@.len(),
                    lists@.len() == i,
                    gmts@.len() == i,
                    forall|j: int|
                        0 <= j < i ==> list_occurrences((#[trigger] lists@[j])@)
                            == list_occurrences(jobs@[j].rank_list@),
                    forall|j: int|
                        0 <= j < i ==> item_views((#[trigger] gmts@[j])@) == item_views(
                            jobs@[j].gmt@,
                        ),
                decreases jobs@.len() - i,
            {
                lists.push(copy_rank_list(&jobs[i].rank_list));
                gmts.push(copy_gmt(&jobs[i].gmt));
                i += 1;
            }
            proof {
                lemma_occurrences_same(lists@, job_lists(jobs@));
                lemma_all_items_same(gmts@, job_gmts(jobs@));
            }
            let rank_groups = combine_lists(&lists, method);
            let gmt = combine_gmts(&gmts);
            MultiOmicsGSEA::Combined(CombinedGSEAJob { gmt, rank_groups, config: jobs[0].config })
        },
    }
}

impl ORAJob {
    /// The rows are the counts of this job's sets against its two lists.
    pub open spec fn counted_by(&self, rows: Seq<PartialORAResult>) -> bool {
        &&& rows.len() == self.gmt@.len()
        &&& forall|i: int|
            0 <= i < rows.len() ==> (#[trigger] rows[i]).counts(
                &self.gmt@[i],
                set_names(self.interest_list),
                set_names(self.reference_list),
                &self.config,
            )
    }

    /// One of the two lists is empty.
    pub open spec fn lacks_names(&self) -> bool {
        set_names(self.interest_list).len() == 0 || set_names(self.reference_list).len() == 0
    }

    /// The name of the list that is empty, the interest list first.
    pub open spec fn lacking(&self) -> Seq<char> {
        if set_names(self.interest_list).len() == 0 {
            "interest list"@
        } else {
            "reference list"@
        }
    }
}

impl MetaScores {
    /// There is one list of p-values for each job, one p-value for each set
    /// of the job, under the identifier of that set, and one combined and
    /// one scaled value for each distinct set.
    pub open spec fn fits_ora(&self, jobs: Seq<ORAJob>) -> bool {
        &&& self.p_values@.len() == jobs.len()
        &&& forall|j: int|
            0 <= j < jobs.len() ==> (#[trigger] self.p_values@[j])@.len() == jobs[j].gmt@.len()
        &&& forall|j: int, i: int|
            0 <= j < jobs.len() && 0 <= i < jobs[j].gmt@.len() ==> (
            #[trigger] self.p_values@[j]@[i]).set@ == jobs[j].gmt@[i].id@
        &&& self.well_formed()
    }
}

/// Tells whether the scores of a meta-analysis fit a number of jobs.
pub fn check_ora_scores(scores: &MetaScores, jobs: &Vec<ORAJob>) -> (fit: bool)
    ensures
        fit == scores.fits_ora(jobs@),
{
    if scores.p_values.len() != jobs.len() {
        return false;
    }
    let mut j: usize = 0;
    while j < jobs.len()
        invariant
            j <= jobs@.len(),
            scores.p_values@.len() == jobs@.len(),
            forall|k: int|
                0 <= k < j ==> (#[trigger] scores.p_values@[k])@.len() == jobs@[k].gmt@.len(),
            forall|k: int, i: int|
                0 <= k < j && 0 <= i < jobs@[k].gmt@.len() ==> (
                #[trigger] scores.p_values@[k]@[i]).set@ == jobs@[k].gmt@[i].id@,
        decreases jobs@.len() - j,
    {
        let gmt = &jobs[j].gmt;
        let p_values = &scores.p_values[j];
        if p_values.len() != gmt.len() {
            return false;
        }
        let mut i: usize = 0;
        while i < gmt.len()
            invariant
                i <= gmt@.len(),
                j < jobs@.len(),
                scores.p_values@.len() == jobs@.len(),
                *gmt == jobs@[j as int].gmt,
                *p_values == scores.p_values@[j as int],
                p_values@.len() == gmt@.len(),
                forall|k: int| 0 <= k < i ==> (#[trigger] p_values@[k]).set@ == gmt@[k].id@,
            decreases gmt@.len() - i,
        {
            if p_values[i].set != gmt[i].id {
                proof {
                    assert(scores.p_values@[j as int]@[i as int].set@
                        != jobs@[j as int].gmt@[i as int].id@);
                }
                return false;
            }
            i += 1;
        }
        j += 1;
    }
    check_meta_scores(scores)
}

/// The outcome of a meta-analysis of over-representation runs: the
/// combined results first, then the counts of each run, in the order of the
/// jobs.
#[derive(Debug)]
pub struct MetaORA {
    pub meta: Vec<MetaRow>,
    pub runs: Vec<Vec<PartialORAResult>>,
}

/// Brings several over-representation jobs together, which is done by
/// meta-analysis only. Every job is counted on its own; `scores` holds the
/// p-value of each set of each job and what was combined from them. The
/// outcome holds one combined result for each distinct set, in the order of
/// first occurrence, with the combined p-value of the set and the step-up
/// adjustment of the combined p-values, and after them the counts of each
/// job. The first job with an empty list stops the analysis.
pub fn multiomic_ora(
    jobs: &Vec<ORAJob>,
    method: MultiOmicsMethod,
    scores: &MetaScores,
) -> (out: Result<MetaORA, WebGestaltError>)
    requires
        method is Meta,
        scores.fits_ora(jobs@),
    ensures
        match out {
            Ok(meta) => {
                &&& meta.runs@.len() == jobs@.len()
                &&& forall|j: int| 0 <= j < jobs@.len() ==> !(#[trigger] jobs@[j]).lacks_names()
                &&& forall|j: int|
                    0 <= j < jobs@.len() ==> jobs@[j].counted_by((#[trigger] meta.runs@[j])@)
                &&& scores.gives(meta.meta@)
            },
            Err(WebGestaltError::StatisticsError(StatisticsError::InvalidValue { value })) => {
                exists|j: int|
                    0 <= j < jobs@.len() && (#[trigger] jobs@[j]).lacks_names() && value@
                        == jobs@[j].lacking() && forall|i: int|
                        0 <= i < j ==> !(#[trigger] jobs@[i]).lacks_names()
            },
            Err(_) => false,
        },
{
    match count_jobs(jobs) {
        Ok(runs) => {
            let meta = meta_analysis(scores);
            Ok(MetaORA { meta, runs })
        },
        Err(e) => Err(e),
    }
}

/// Counts what every set of every job is tested on, job by job. The first
/// job with an empty list stops the count.
pub fn count_jobs(jobs: &Vec<ORAJob>) -> (out: Result<Vec<Vec<PartialORAResult>>, WebGestaltError>)
    ensures
        match out {
            Ok(results) => {
                &&& results@.len() == jobs@.len()
                &&& forall|j: int| 0 <= j < jobs@.len() ==> !(#[trigger] jobs@[j]).lacks_names()
                &&& forall|j: int|
                    0 <= j < jobs@.len() ==> jobs@[j].counted_by((#[trigger] results@[j])@)
            },
            Err(WebGestaltError::StatisticsError(StatisticsError::InvalidValue { value })) => {
                exists|j: int|
                    0 <= j < jobs@.len() && (#[trigger] jobs@[j]).lacks_names() && value@
                        == jobs@[j].lacking() && forall|i: int|
                        0 <= i < j ==> !(#[trigger] jobs@[i]).lacks_names()
            },
            Err(_) => false,
        },
{
    let mut results: Vec<Vec<PartialORAResult>> = Vec::new();
    let mut i: usize = 0;
    while i < jobs.len()
        invariant
            i <= jobs@.len(),
            results@.len() == i,
            forall|j: int| 0 <= j < i ==> !(#[trigger] jobs@[j]).lacks_names(),
            forall|j: int| 0 <= j < i ==> jobs@[j].counted_by((#[trigger] results@[j])@),
        decreases jobs@.len() - i,
    {
        let job = &jobs[i];
        match get_ora(&job.interest_list, &job.reference_list, &job.gmt, &job.config) {
            Ok(rows) => {
                proof {
                    assert(!jobs@[i as int].lacks_names());
                    assert(jobs@[i as int].counted_by(rows@));
                }
                let ghost before = results@;
                results.push(rows);
                proof {
                    assert forall|j: int| 0 <= j < i + 1 implies jobs@[j].counted_by(
                        (#[trigger] results@[j])@,
                    ) by {
                        if j < i {
                            assert(results@[j] == before[j]);
                        }
                    }
                }
            },
            Err(e) => {
                proof {
                    assert(jobs@[i as int].lacks_names());
                    assert(forall|k: int| 0 <= k < i ==> !(#[trigger] jobs@[k]).lacks_names());
                }
                return Err(e);
            },
        }
        i += 1;
    }
    Ok(results)
}

} // verus!
