//! The analyte set record.

use vstd::prelude::*;
use crate::names::names_of;

verus! {

/// An analyte set: an identifier, a reference string and the member names.
/// Members may repeat; the analyses read them as a set.
#[derive(Debug)]
pub struct Item {
    pub id: String,
    pub url: String,
    pub parts: Vec<String>,
}

/// What an `Item` holds, as sequences of characters.
pub struct ItemView {
    pub id: Seq<char>,
    pub url: Seq<char>,
    pub parts: Seq<Seq<char>>,
}

impl View for Item {
    type V = ItemView;

    open spec fn view(&self) -> ItemView {
        ItemView { id: self.id@, url: self.url@, parts: names_of(self.parts@) }
    }
}

/// The views of a list of sets.
pub open spec fn item_views(items: Seq<Item>) -> Seq<ItemView> {
    Seq::new(items.len(), |i: int| items[i]@)
}

impl Item {
    /// The set of the member names.
    pub open spec fn members(&self) -> Set<Seq<char>> {
        names_of(self.parts@).to_set()
    }

    /// A copy with the same identifier, reference and members.
    pub fn duplicate(&self) -> (copy: Item)
        ensures
            copy@ == self@,
    {
        Item {
            id: self.id.clone(),
            url: self.url.clone(),
            parts: crate::names::copy_names(&self.parts),
        }
    }
}

impl Clone for Item {
    fn clone(&self) -> (copy: Item)
        ensures
            copy@ == self@,
    {
        self.duplicate()
    }
}

} // verus!
