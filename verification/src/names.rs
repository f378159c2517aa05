//! Hash collections keyed by analyte and set names.
//!
//! The collections are those of the `ahash` crate. Their contents are named
//! by `set_names` and `map_indices`, and the few methods that the library
//! calls are given contracts over those names.

use ahash::AHashMap;
use ahash::AHashSet;
use ahash::RandomState;
use vstd::prelude::*;

verus! {

/// The hasher state of the `ahash` crate. Nothing is known of it.
#[verifier::external_type_specification]
#[verifier::external_body]
pub struct ExRandomState(RandomState);

/// The hash set of the `ahash` crate. What a set of names holds is named
/// by `set_names`.
#[verifier::external_type_specification]
#[verifier::external_body]
#[verifier::reject_recursive_types(T)]
#[verifier::reject_recursive_types(S)]
pub struct ExAHashSet<T, S>(AHashSet<T, S>);

/// The hash map of the `ahash` crate. What a map from names to indices
/// holds is named by `map_indices`.
#[verifier::external_type_specification]
#[verifier::external_body]
#[verifier::reject_recursive_types(K)]
#[verifier::reject_recursive_types(V)]
#[verifier::reject_recursive_types(S)]
pub struct ExAHashMap<K, V, S>(AHashMap<K, V, S>);

/// The names that a hash set holds.
pub uninterp spec fn set_names(s: AHashSet<String>) -> Set<Seq<char>>;

/// The name-to-index entries that a hash map holds.
pub uninterp spec fn map_indices(m: AHashMap<String, usize>) -> Map<Seq<char>, usize>;

/// The character sequences of a list of names.
pub open spec fn names_of(names: Seq<String>) -> Seq<Seq<char>> {
    names.map_values(|s: String| s@)
}

/// A list with the same names in the same order.
pub fn copy_names(names: &Vec<String>) -> (copy: Vec<String>)
    ensures
        names_of(copy@) == names_of(names@),
{
    let mut copy: Vec<String> = Vec::new();
    let mut i: usize = 0;
    while i < names.len()
        invariant
            i <= names@.len(),
            copy@.len() == i,
            forall|j: int| 0 <= j < i ==> (#[trigger] copy@[j])@ == names@[j]@,
        decreases names@.len() - i,
    {
        copy.push(names[i].clone());
        i += 1;
    }
    proof {
        assert(names_of(copy@) =~= names_of(names@));
    }
    copy
}

/// A hash set that holds the names of a list.
pub fn name_set_from(names: &Vec<String>) -> (s: AHashSet<String>)
    ensures
        set_names(s) == names_of(names@).to_set(),
{
    let mut s = name_set_new();
    let mut i: usize = 0;
    proof {
        assert(names_of(names@).take(0).to_set() =~= Set::<Seq<char>>::empty());
    }
    while i < names.len()
        invariant
            i <= names@.len(),
            set_names(s) == names_of(names@).take(i as int).to_set(),
        decreases names@.len() - i,
    {
        let ghost before = names_of(names@).take(i as int);
        let _ = name_set_insert(&mut s, names[i].clone());
        proof {
            let after = names_of(names@).take(i + 1);
            assert(after =~= before.push(names@[i as int]@));
            before.lemma_push_to_set_commute(names@[i as int]@);
        }
        i += 1;
    }
    proof {
        assert(names_of(names@).take(names@.len() as int) =~= names_of(names@));
    }
    s
}

/// A set of names is finite and holds exactly `n` names.
pub open spec fn has_size(names: Set<Seq<char>>, n: nat) -> bool {
    names.finite() && names.len() == n
}

/// `AHashSet::default`. Trusted: the new set holds no name.
#[verifier::external_body]
pub(crate) fn name_set_new() -> (s: AHashSet<String>)
    ensures
        set_names(s) == Set::<Seq<char>>::empty(),
{
    AHashSet::default()
}

/// `HashSet::contains`, reached through `AHashSet`. Trusted: the answer is
/// whether the set holds a name with the same characters.
#[verifier::external_body]
pub(crate) fn name_set_contains(s: &AHashSet<String>, name: &String) -> (found: bool)
    ensures
        found == set_names(*s).contains(name@),
{
    s.contains(name)
}

/// `HashSet::insert`, reached through `AHashSet`. Trusted: afterwards the
/// set holds the name besides what it held, and the answer is whether the
/// name was new.
#[verifier::external_body]
pub(crate) fn name_set_insert(s: &mut AHashSet<String>, name: String) -> (fresh: bool)
    ensures
        set_names(*final(s)) == set_names(*old(s)).insert(name@),
        fresh == !set_names(*old(s)).contains(name@),
{
    s.insert(name)
}

/// `HashSet::len`, reached through `AHashSet`. Trusted: a hash set holds
/// finitely many names, and the answer is their number.
#[verifier::external_body]
pub(crate) fn name_set_len(s: &AHashSet<String>) -> (n: usize)
    ensures
        has_size(set_names(*s), n as nat),
{
    s.len()
}

/// The map without entries.
pub open spec fn no_indices() -> Map<Seq<char>, usize> {
    Map::empty()
}

/// `AHashMap::default`. Trusted: the new map holds no entry.
#[verifier::external_body]
pub(crate) fn index_map_new() -> (m: AHashMap<String, usize>)
    ensures
        map_indices(m) == no_indices(),
{
    AHashMap::default()
}

/// `HashMap::get`, reached through `AHashMap`. Trusted: the answer is the
/// index stored under a name with the same characters, if there is one.
#[verifier::external_body]
pub(crate) fn index_map_get(
    m: &AHashMap<String, usize>,
    name: &String,
) -> (found: Option<usize>)
    ensures
        found == (if map_indices(*m).dom().contains(name@) {
            Some(map_indices(*m)[name@])
        } else {
            None
        }),
{
    m.get(name).copied()
}

/// `HashMap::insert`, reached through `AHashMap`. Trusted: afterwards the
/// map holds the entry besides what it held under other names.
#[verifier::external_body]
pub(crate) fn index_map_insert(m: &mut AHashMap<String, usize>, name: String, index: usize)
    ensures
        map_indices(*final(m)) == map_indices(*old(m)).insert(name@, index),
{
    m.insert(name, index);
}

/// The first position of a name in a list, or -1.
pub open spec fn position_of(names: Seq<Seq<char>>, name: Seq<char>) -> int
    decreases names.len(),
{
    if names.len() == 0 {
        -1
    } else {
        let earlier = position_of(names.drop_last(), name);
        if earlier >= 0 {
            earlier
        } else if names.last() == name {
            names.len() - 1
        } else {
            -1
        }
    }
}

/// `position_of` names the first place of the name, and -1 where the list
/// does not hold it.
pub proof fn lemma_position_of(names: Seq<Seq<char>>, name: Seq<char>)
    ensures
        -1 <= position_of(names, name) < names.len(),
        position_of(names, name) >= 0 ==> names[position_of(names, name)] == name,
        forall|j: int|
            0 <= j < names.len() && (position_of(names, name) < 0 || j < position_of(names, name))
                ==> (#[trigger] names[j]) != name,
    decreases names.len(),
{
    if names.len() > 0 {
        lemma_position_of(names.drop_last(), name);
        let earlier = position_of(names.drop_last(), name);
        assert forall|j: int|
            0 <= j < names.len() && (position_of(names, name) < 0 || j < position_of(
                names,
                name,
            )) implies (#[trigger] names[j]) != name by {
            if j < names.len() - 1 {
                assert(names.drop_last()[j] == names[j]);
            }
        }
        if earlier >= 0 {
            assert(names.drop_last()[earlier] == names[earlier]);
        }
    }
}

/// The names of a list without repeats, in the order in which they first
/// occur.
pub open spec fn first_occurrences(names: Seq<Seq<char>>) -> Seq<Seq<char>>
    decreases names.len(),
{
    if names.len() == 0 {
        Seq::empty()
    } else {
        let earlier = first_occurrences(names.drop_last());
        if position_of(earlier, names.last()) >= 0 {
            earlier
        } else {
            earlier.push(names.last())
        }
    }
}

/// The first occurrences hold no name twice, and they hold every name of
/// the list.
pub proof fn lemma_first_occurrences(names: Seq<Seq<char>>)
    ensures
        first_occurrences(names).no_duplicates(),
        first_occurrences(names).len() <= names.len(),
        forall|k: int|
            0 <= k < names.len() ==> position_of(first_occurrences(names), #[trigger] names[k])
                >= 0,
        forall|i: int|
            0 <= i < first_occurrences(names).len() ==> names.contains(
                #[trigger] first_occurrences(names)[i],
            ),
    decreases names.len(),
{
    if names.len() > 0 {
        let front = names.drop_last();
        let earlier = first_occurrences(front);
        let now = first_occurrences(names);
        lemma_first_occurrences(front);
        lemma_position_of(earlier, names.last());
        assert forall|k: int| 0 <= k < names.len() implies position_of(now, #[trigger] names[k])
            >= 0 by {
            lemma_position_of(now, names[k]);
            if k < front.len() {
                assert(front[k] == names[k]);
                lemma_position_of(earlier, names[k]);
                let at = position_of(earlier, names[k]);
                assert(now[at] == names[k]);
            } else {
                if position_of(earlier, names.last()) >= 0 {
                    let at = position_of(earlier, names.last());
                    assert(now[at] == names[k]);
                } else {
                    assert(now[now.len() - 1] == names[k]);
                }
            }
        }
        assert forall|i: int| 0 <= i < now.len() implies names.contains(#[trigger] now[i]) by {
            if i < earlier.len() {
                assert(front.contains(earlier[i]));
                let w = choose|w: int| 0 <= w < front.len() && front[w] == earlier[i];
                assert(names[w] == now[i]);
            } else {
                assert(names[names.len() - 1] == now[i]);
            }
        }
    }
}

/// `index` finds each name of `names` at its place, and nothing else.
pub open spec fn finds(index: Map<Seq<char>, usize>, names: Seq<Seq<char>>) -> bool {
    &&& forall|i: int|
        0 <= i < names.len() ==> index.dom().contains(#[trigger] names[i]) && index[names[i]] == i
    &&& forall|name: Seq<char>| #[trigger]
        index.dom().contains(name) ==> index[name] < names.len() && names[index[name] as int]
            == name
}

/// An index that finds the names of a list finds them where `position_of`
/// does.
pub proof fn lemma_finds_position(
    index: Map<Seq<char>, usize>,
    names: Seq<Seq<char>>,
    name: Seq<char>,
)
    requires
        finds(index, names),
    ensures
        index.dom().contains(name) <==> position_of(names, name) >= 0,
        index.dom().contains(name) ==> index[name] == position_of(names, name),
{
    lemma_position_of(names, name);
    if position_of(names, name) >= 0 {
        let at = position_of(names, name);
        assert(index.dom().contains(names[at]));
    }
}

/// The distinct names of a list with an index over them.
pub struct NameIndex {
    /// The names, each once, in the order of first occurrence.
    pub names: Vec<String>,
    /// The place of each name in `names`.
    pub index: AHashMap<String, usize>,
}

/// Collects the distinct names of a list in the order in which they first
/// occur, with an index that finds each at its place.
pub fn index_names(list: &Vec<String>) -> (found: NameIndex)
    ensures
        names_of(found.names@) == first_occurrences(names_of(list@)),
        finds(map_indices(found.index), names_of(found.names@)),
{
    let mut index: AHashMap<String, usize> = index_map_new();
    let mut names: Vec<String> = Vec::new();
    let mut k: usize = 0;
    proof {
        assert(names_of(list@).take(0) =~= Seq::<Seq<char>>::empty());
        assert(names_of(names@) =~= Seq::<Seq<char>>::empty());
    }
    while k < list.len()
        invariant
            k <= list@.len(),
            names_of(names@) == first_occurrences(names_of(list@).take(k as int)),
            finds(map_indices(index), names_of(names@)),
        decreases list@.len() - k,
    {
        let ghost held = names_of(names@);
        proof {
            assert(names_of(list@).take(k + 1).drop_last() =~= names_of(list@).take(k as int));
            assert(names_of(list@).take(k + 1).last() == list@[k as int]@);
            lemma_finds_position(map_indices(index), held, list@[k as int]@);
        }
        match index_map_get(&index, &list[k]) {
            Some(_) => {},
            None => {
                index_map_insert(&mut index, list[k].clone(), names.len());
                names.push(list[k].clone());
                proof {
                    assert(names_of(names@) =~= held.push(list@[k as int]@));
                }
            },
        }
        k += 1;
    }
    proof {
        assert(names_of(list@).take(list@.len() as int) =~= names_of(list@));
    }
    NameIndex { names, index }
}

/// `index` holds exactly the names of `names`, each with its first place.
pub open spec fn finds_first(index: Map<Seq<char>, usize>, names: Seq<Seq<char>>) -> bool {
    forall|name: Seq<char>|
        (#[trigger] index.dom().contains(name) <==> position_of(names, name) >= 0) && (
        index.dom().contains(name) ==> index[name] == position_of(names, name))
}

/// An index from each name of a list to its first place in the list.
pub fn index_positions(list: &Vec<String>) -> (index: AHashMap<String, usize>)
    ensures
        finds_first(map_indices(index), names_of(list@)),
{
    let mut index: AHashMap<String, usize> = index_map_new();
    let mut k: usize = 0;
    proof {
        assert(names_of(list@).take(0) =~= Seq::<Seq<char>>::empty());
    }
    while k < list.len()
        invariant
            k <= list@.len(),
            finds_first(map_indices(index), names_of(list@).take(k as int)),
        decreases list@.len() - k,
    {
        let ghost before = map_indices(index);
        proof {
            assert(names_of(list@).take(k + 1).drop_last() =~= names_of(list@).take(k as int));
            assert(names_of(list@).take(k + 1).last() == list@[k as int]@);
            assert(before.dom().contains(list@[k as int]@) <==> position_of(
                names_of(list@).take(k as int),
                list@[k as int]@,
            ) >= 0);
        }
        match index_map_get(&index, &list[k]) {
            Some(_) => {},
            None => {
                index_map_insert(&mut index, list[k].clone(), k);
            },
        }
        proof {
            let grown = names_of(list@).take(k + 1);
            assert forall|name: Seq<char>|
                (#[trigger] map_indices(index).dom().contains(name) <==> position_of(grown, name)
                    >= 0) && (map_indices(index).dom().contains(name) ==> map_indices(index)[name]
                    == position_of(grown, name)) by {
                assert(before.dom().contains(name) <==> position_of(
                    names_of(list@).take(k as int),
                    name,
                ) >= 0);
            }
        }
        k += 1;
    }
    proof {
        assert(names_of(list@).take(list@.len() as int) =~= names_of(list@));
    }
    index
}

} // verus!
