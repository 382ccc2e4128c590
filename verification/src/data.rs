//! The records held by the index and handed out by queries.

use crate::key::coordinate_key;
use crate::key::coordinate_text;
use crate::perfect::{hints_contents, hints_map_get, names_contents, names_map_get};
use vstd::prelude::*;

verus! {

/// The display strings of one hint, one per supported language.
#[derive(Clone, Debug, PartialEq, Eq)]
pub struct HintName {
    pub de: String,
    pub en: String,
    pub es: String,
    pub fr: String,
    pub it: String,
    pub pt: String,
}

/// Mathematical value of a [`HintName`].
pub struct HintNameView {
    pub de: Seq<char>,
    pub en: Seq<char>,
    pub es: Seq<char>,
    pub fr: Seq<char>,
    pub it: Seq<char>,
    pub pt: Seq<char>,
}

impl View for HintName {
    type V = HintNameView;

    open spec fn view(&self) -> HintNameView {
        HintNameView {
            de: self.de@,
            en: self.en@,
            es: self.es@,
            fr: self.fr@,
            it: self.it@,
            pt: self.pt@,
        }
    }
}

impl HintName {
    /// A copy with the same strings.
    pub fn duplicate(&self) -> (copy: HintName)
        ensures
            copy@ == self@,
    {
        HintName {
            de: self.de.clone(),
            en: self.en.clone(),
            es: self.es.clone(),
            fr: self.fr.clone(),
            it: self.it.clone(),
            pt: self.pt.clone(),
        }
    }
}

/// One waypoint along a ray: how far away it is, where it lies, and which
/// hints are seen there.
#[derive(Clone, Debug, PartialEq, Eq)]
pub struct HintStep {
    pub dist: u32,
    pub x: i32,
    pub y: i32,
    pub hint_ids: Vec<u32>,
}

/// Mathematical value of a [`HintStep`].
pub struct HintStepView {
    pub dist: u32,
    pub x: i32,
    pub y: i32,
    pub hint_ids: Seq<u32>,
}

impl View for HintStep {
    type V = HintStepView;

    open spec fn view(&self) -> HintStepView {
        HintStepView { dist: self.dist, x: self.x, y: self.y, hint_ids: self.hint_ids@ }
    }
}

/// The closest occurrence of one hint along a ray, with its names.
#[derive(Clone, Debug, PartialEq, Eq)]
pub struct Hint<'a> {
    pub names: &'a HintName,
    pub dist: u32,
    pub x: i32,
    pub y: i32,
}

/// Mathematical value of a [`Hint`].
pub struct HintView {
    pub names: HintNameView,
    pub dist: u32,
    pub x: i32,
    pub y: i32,
}

impl<'a> View for Hint<'a> {
    type V = HintView;

    open spec fn view(&self) -> HintView {
        HintView { names: self.names@, dist: self.dist, x: self.x, y: self.y }
    }
}

/// The steps stored for one cell: one slot per direction, each either
/// absent or the steps along that ray in stored order.
pub type DirectionTable = [Option<Vec<HintStep>>; 4];

/// Mathematical value of a [`DirectionTable`]: four slots.
pub type TableView = Seq<Option<Seq<HintStepView>>>;

/// The values of a run of steps, in the same order.
pub open spec fn steps_view(steps: Seq<HintStep>) -> Seq<HintStepView> {
    Seq::new(steps.len(), |i: int| steps[i]@)
}

/// The value of one slot of a direction table.
pub open spec fn slot_view(slot: Option<Vec<HintStep>>) -> Option<Seq<HintStepView>> {
    match slot {
        Some(steps) => Some(steps_view(steps@)),
        None => None,
    }
}

/// The value of a direction table.
pub open spec fn table_view(table: DirectionTable) -> TableView {
    Seq::new(4, |d: int| slot_view(table@[d]))
}

/// The immutable index: the name record of each hint, and the direction
/// table of each cell that has one.
pub struct HintIndex {
    names: phf::Map<u32, HintName>,
    hints: phf::Map<String, DirectionTable>,
}

impl HintIndex {
    /// The name records, by hint identifier.
    pub closed spec fn names(&self) -> Map<u32, HintNameView> {
        names_contents(self.names)
    }

    /// The direction tables, by key text.
    pub closed spec fn hints(&self) -> Map<Seq<char>, TableView> {
        hints_contents(self.hints)
    }

    /// The steps stored for the cell `(x, y)` in `direction`: none where
    /// the direction is not one of the four, where the cell has no table,
    /// or where the slot is absent.
    pub open spec fn steps(&self, x: int, y: int, direction: int) -> Seq<HintStepView> {
        let key = coordinate_key(x, y);
        if 0 <= direction < 4 && self.hints().contains_key(key) {
            match self.hints()[key][direction] {
                Some(steps) => steps,
                None => Seq::empty(),
            }
        } else {
            Seq::empty()
        }
    }

    pub(crate) fn from_tables(
        names: phf::Map<u32, HintName>,
        hints: phf::Map<String, DirectionTable>,
    ) -> (index: HintIndex)
        ensures
            index.names() == names_contents(names),
            index.hints() == hints_contents(hints),
    {
        HintIndex { names, hints }
    }
}

/// The whole name table.
pub fn get_names_map(index: &HintIndex) -> (map: &phf::Map<u32, HintName>)
    ensures
        names_contents(*map) == index.names(),
{
    &index.names
}

/// The name record of hint `id`, if the index has one.
pub fn get_names(index: &HintIndex, id: u32) -> (found: Option<&HintName>)
    ensures
        match found {
            Some(name) => index.names().contains_key(id) && name@ == index.names()[id],
            None => !index.names().contains_key(id),
        },
{
    names_map_get(&index.names, id)
}

/// The whole hint table.
pub fn get_hints_map(index: &HintIndex) -> (map: &phf::Map<String, DirectionTable>)
    ensures
        hints_contents(*map) == index.hints(),
{
    &index.hints
}

/// The direction table of the cell `(x, y)`, if the index has one.
pub fn get_hints(index: &HintIndex, x: i32, y: i32) -> (found: Option<&DirectionTable>)
    ensures
        match found {
            Some(table) => index.hints().contains_key(coordinate_key(x as int, y as int))
                && table_view(*table) == index.hints()[coordinate_key(x as int, y as int)],
            None => !index.hints().contains_key(coordinate_key(x as int, y as int)),
        },
{
    let coords: String = coordinate_text(x, y);
    hints_map_get(&index.hints, coords.as_str())
}

} // verus!
