//! Building the index from tabular records.

use crate::data::{slot_view, steps_view, table_view};
use crate::data::{
    DirectionTable, HintIndex, HintName, HintNameView, HintStep, HintStepView, TableView,
};
use crate::ident::{accepted_ids, id_of_text, kept_ids, parse_hint_id};
use crate::perfect::{hints_map_of, names_map_of};
use std::collections::{HashMap, HashSet};
use vstd::prelude::*;
use vstd::utf8::encode_utf8;

verus! {

/// One step as the data source gives it. An entry of `ids` that is not a
/// number is `None`.
#[derive(Clone, Debug, PartialEq, Eq)]
pub struct RawStep {
    pub d: u32,
    pub x: i32,
    pub y: i32,
    pub ids: Vec<Option<u64>>,
}

/// The record of one cell as the data source gives it: the key text and
/// one entry per direction.
#[derive(Clone, Debug, PartialEq, Eq)]
pub struct RawTable {
    pub key: String,
    pub directions: Vec<Option<Vec<RawStep>>>,
}

/// The record of one hint as the data source gives it: the identifier in
/// decimal and the names.
#[derive(Clone, Debug, PartialEq, Eq)]
pub struct RawName {
    pub key: String,
    pub names: HintName,
}

/// Why a set of records cannot be made into an index. `record` is the
/// position of the first record at fault.
#[derive(Clone, Copy, Debug, PartialEq, Eq, Structural)]
pub enum BuildError {
    /// One of the two tables has more records than 32 bits count.
    TooManyRecords,
    /// The key of a name record does not write an identifier.
    InvalidNameKey { record: usize },
    /// A name record has the identifier of an earlier one.
    DuplicateName { record: usize },
    /// A cell record does not have exactly four direction entries.
    SlotCount { record: usize },
    /// A cell record has the key of an earlier one.
    DuplicateCoordinate { record: usize },
}

/// The step that is stored for a raw one: the same place and distance, and
/// the identifiers that are kept.
pub open spec fn built_step(raw: RawStep) -> HintStepView {
    HintStepView { dist: raw.d, x: raw.x, y: raw.y, hint_ids: kept_ids(raw.ids@) }
}

/// The steps stored for a run of raw ones: one for each, in the same order.
pub open spec fn built_steps(raw: Seq<RawStep>) -> Seq<HintStepView> {
    Seq::new(raw.len(), |i: int| built_step(raw[i]))
}

/// The slot stored for a raw direction entry.
pub open spec fn built_slot(raw: Option<Vec<RawStep>>) -> Option<Seq<HintStepView>> {
    match raw {
        Some(steps) => Some(built_steps(steps@)),
        None => None,
    }
}

/// The table stored for four raw direction entries.
pub open spec fn built_table(directions: Seq<Option<Vec<RawStep>>>) -> TableView {
    Seq::new(4, |d: int| built_slot(directions[d]))
}

/// The identifier that the key of name record `i` writes.
pub open spec fn name_id(names: Seq<RawName>, i: int) -> Option<u32> {
    id_of_text(names[i].key@)
}

/// The key text of cell record `i`.
pub open spec fn table_key(tables: Seq<RawTable>, i: int) -> Seq<char> {
    tables[i].key@
}

/// The keys of the first `n` name records all write an identifier.
pub open spec fn names_valid(names: Seq<RawName>, n: int) -> bool {
    forall|i: int| 0 <= i < n ==> (#[trigger] name_id(names, i)) is Some
}

/// No two of the first `n` name records have the same identifier.
pub open spec fn names_distinct(names: Seq<RawName>, n: int) -> bool {
    forall|i: int, j: int|
        0 <= i < j < n ==> #[trigger] name_id(names, i) != #[trigger] name_id(names, j)
}

/// Each of the first `n` cell records has four direction entries.
pub open spec fn slots_counted(tables: Seq<RawTable>, n: int) -> bool {
    forall|i: int| 0 <= i < n ==> (#[trigger] tables[i]).directions.len() == 4
}

/// No two of the first `n` cell records have the same key.
pub open spec fn keys_distinct(tables: Seq<RawTable>, n: int) -> bool {
    forall|i: int, j: int|
        0 <= i < j < n ==> #[trigger] table_key(tables, i) != #[trigger] table_key(tables, j)
}

/// Neither table has more records than 32 bits count.
pub open spec fn sizes_fit(tables: Seq<RawTable>, names: Seq<RawName>) -> bool {
    tables.len() <= u32::MAX && names.len() <= u32::MAX
}

/// The name records can be made into a name table.
pub open spec fn names_accepted(names: Seq<RawName>) -> bool {
    names_valid(names, names.len() as int) && names_distinct(names, names.len() as int)
}

/// The records can be made into an index.
pub open spec fn accepted(tables: Seq<RawTable>, names: Seq<RawName>) -> bool {
    &&& sizes_fit(tables, names)
    &&& names_accepted(names)
    &&& slots_counted(tables, tables.len() as int)
    &&& keys_distinct(tables, tables.len() as int)
}

/// `error` is the fault of the records: the first that is met when the
/// sizes are looked at, then the keys of the name records, then their
/// identifiers, then the direction entries of the cell records, then
/// their keys, each table in record order.
pub open spec fn rejects(tables: Seq<RawTable>, names: Seq<RawName>, error: BuildError) -> bool {
    match error {
        BuildError::TooManyRecords => !sizes_fit(tables, names),
        BuildError::InvalidNameKey { record } => {
            &&& sizes_fit(tables, names)
            &&& record < names.len()
            &&& names_valid(names, record as int)
            &&& name_id(names, record as int) is None
        },
        BuildError::DuplicateName { record } => {
            &&& sizes_fit(tables, names)
            &&& names_valid(names, names.len() as int)
            &&& record < names.len()
            &&& names_distinct(names, record as int)
            &&& !names_distinct(names, record + 1)
        },
        BuildError::SlotCount { record } => {
            &&& sizes_fit(tables, names)
            &&& names_accepted(names)
            &&& record < tables.len()
            &&& slots_counted(tables, record as int)
            &&& tables[record as int].directions.len() != 4
        },
        BuildError::DuplicateCoordinate { record } => {
            &&& sizes_fit(tables, names)
            &&& names_accepted(names)
            &&& slots_counted(tables, tables.len() as int)
            &&& record < tables.len()
            &&& keys_distinct(tables, record as int)
            &&& !keys_distinct(tables, record + 1)
        },
    }
}

/// `held` has the names of every record under its identifier, and nothing
/// else.
pub open spec fn holds_names(names: Seq<RawName>, held: Map<u32, HintNameView>) -> bool {
    &&& forall|i: int|
        0 <= i < names.len() && (#[trigger] name_id(names, i)) is Some ==> held.contains_key(
            name_id(names, i)->0,
        ) && held[name_id(names, i)->0] == names[i].names@
    &&& forall|id: u32| #[trigger]
        held.contains_key(id) ==> exists|i: int|
            0 <= i < names.len() && #[trigger] name_id(names, i) == Some(id)
}

/// `held` has the table of every record under its key, and nothing else.
pub open spec fn holds_tables(tables: Seq<RawTable>, held: Map<Seq<char>, TableView>) -> bool {
    &&& forall|i: int|
        0 <= i < tables.len() ==> held.contains_key(#[trigger] table_key(tables, i))
            && held[table_key(tables, i)] == built_table(tables[i].directions@)
    &&& forall|key: Seq<char>| #[trigger]
        held.contains_key(key) ==> exists|i: int|
            0 <= i < tables.len() && #[trigger] table_key(tables, i) == key
}

/// Records have at most one fault.
pub proof fn lemma_fault_is_unique(
    tables: Seq<RawTable>,
    names: Seq<RawName>,
    first: BuildError,
    second: BuildError,
)
    requires
        rejects(tables, names, first),
        rejects(tables, names, second),
    ensures
        first == second,
{
}

/// Records that can be made into an index have no fault.
pub proof fn lemma_accepted_has_no_fault(
    tables: Seq<RawTable>,
    names: Seq<RawName>,
    error: BuildError,
)
    requires
        accepted(tables, names),
    ensures
        !rejects(tables, names, error),
{
}

/// Where some key of the first `n` name records writes no identifier, one
/// of them is the first to do so.
proof fn lemma_first_invalid_name(names: Seq<RawName>, n: int) -> (record: int)
    requires
        0 <= n <= names.len(),
        !names_valid(names, n),
    ensures
        0 <= record < n,
        names_valid(names, record),
        name_id(names, record) is None,
    decreases n,
{
    if names_valid(names, n - 1) {
        n - 1
    } else {
        lemma_first_invalid_name(names, n - 1)
    }
}

/// Where two of the first `n` name records have the same identifier, one
/// record is the first to repeat an earlier one.
proof fn lemma_first_repeated_name(names: Seq<RawName>, n: int) -> (record: int)
    requires
        0 <= n <= names.len(),
        !names_distinct(names, n),
    ensures
        0 <= record < n,
        names_distinct(names, record),
        !names_distinct(names, record + 1),
    decreases n,
{
    if names_distinct(names, n - 1) {
        n - 1
    } else {
        lemma_first_repeated_name(names, n - 1)
    }
}

/// Where some of the first `n` cell records has not four direction
/// entries, one of them is the first such.
proof fn lemma_first_miscounted(tables: Seq<RawTable>, n: int) -> (record: int)
    requires
        0 <= n <= tables.len(),
        !slots_counted(tables, n),
    ensures
        0 <= record < n,
        slots_counted(tables, record),
        tables[record].directions.len() != 4,
    decreases n,
{
    if slots_counted(tables, n - 1) {
        n - 1
    } else {
        lemma_first_miscounted(tables, n - 1)
    }
}

/// Where two of the first `n` cell records have the same key, one record
/// is the first to repeat an earlier one.
proof fn lemma_first_repeated_key(tables: Seq<RawTable>, n: int) -> (record: int)
    requires
        0 <= n <= tables.len(),
        !keys_distinct(tables, n),
    ensures
        0 <= record < n,
        keys_distinct(tables, record),
        !keys_distinct(tables, record + 1),
    decreases n,
{
    if keys_distinct(tables, n - 1) {
        n - 1
    } else {
        lemma_first_repeated_key(tables, n - 1)
    }
}

/// Records that cannot be made into an index have a fault.
pub proof fn lemma_refused_has_a_fault(tables: Seq<RawTable>, names: Seq<RawName>)
    requires
        !accepted(tables, names),
    ensures
        exists|error: BuildError| rejects(tables, names, error),
{
    if !sizes_fit(tables, names) {
        assert(rejects(tables, names, BuildError::TooManyRecords));
    } else if !names_valid(names, names.len() as int) {
        let record = lemma_first_invalid_name(names, names.len() as int);
        assert(rejects(tables, names, BuildError::InvalidNameKey { record: record as usize }));
    } else if !names_distinct(names, names.len() as int) {
        let record = lemma_first_repeated_name(names, names.len() as int);
        assert(rejects(tables, names, BuildError::DuplicateName { record: record as usize }));
    } else if !slots_counted(tables, tables.len() as int) {
        let record = lemma_first_miscounted(tables, tables.len() as int);
        assert(rejects(tables, names, BuildError::SlotCount { record: record as usize }));
    } else {
        let record = lemma_first_repeated_key(tables, tables.len() as int);
        assert(rejects(
            tables,
            names,
            BuildError::DuplicateCoordinate { record: record as usize },
        ));
    }
}

/// Name records make one name table at most.
pub proof fn lemma_held_names_are_unique(
    names: Seq<RawName>,
    first: Map<u32, HintNameView>,
    second: Map<u32, HintNameView>,
)
    requires
        holds_names(names, first),
        holds_names(names, second),
    ensures
        first == second,
{
}

/// Cell records make one hint table at most.
pub proof fn lemma_held_tables_are_unique(
    tables: Seq<RawTable>,
    first: Map<Seq<char>, TableView>,
    second: Map<Seq<char>, TableView>,
)
    requires
        holds_tables(tables, first),
        holds_tables(tables, second),
    ensures
        first == second,
{
}

/// The step stored for a raw one.
pub fn step_of(raw: &RawStep) -> (step: HintStep)
    ensures
        step@ == built_step(*raw),
{
    HintStep { dist: raw.d, x: raw.x, y: raw.y, hint_ids: accepted_ids(&raw.ids) }
}

/// The slot stored for a raw direction entry: the steps in the order
/// given, or none where none are given.
pub fn slot_of(raw: &Option<Vec<RawStep>>) -> (slot: Option<Vec<HintStep>>)
    ensures
        slot_view(slot) == built_slot(*raw),
{
    match raw {
        Some(raw_steps) => {
            let mut steps: Vec<HintStep> = Vec::new();
            let mut at: usize = 0;
            while at < raw_steps.len()
                invariant
                    at <= raw_steps.len(),
                    steps.len() == at,
                    forall|i: int|
                        0 <= i < at ==> (#[trigger] steps[i])@ == built_step(raw_steps[i]),
                decreases raw_steps.len() - at,
            {
                steps.push(step_of(&raw_steps[at]));
                at += 1;
            }
            Some(steps)
        },
        None => None,
    }
}

/// The table stored for the direction entries of a cell record, or none
/// where there are not exactly four entries.
pub fn table_of(directions: &[Option<Vec<RawStep>>]) -> (table: Option<DirectionTable>)
    ensures
        match table {
            Some(table) => directions.len() == 4 && table_view(table) == built_table(directions@),
            None => directions.len() != 4,
        },
{
    if directions.len() != 4 {
        return None;
    }
    let table: DirectionTable = [
        slot_of(&directions[0]),
        slot_of(&directions[1]),
        slot_of(&directions[2]),
        slot_of(&directions[3]),
    ];
    Some(table)
}

/// The position of the first entry whose identifier an earlier entry has.
fn first_repeated_id(entries: &Vec<(u32, HintName)>) -> (found: Option<usize>)
    ensures
        match found {
            Some(later) => {
                &&& later < entries.len()
                &&& forall|i: int, j: int| 0 <= i < j < later ==> entries[i].0 != entries[j].0
                &&& exists|i: int| 0 <= i < later && entries[i].0 == entries[later as int].0
            },
            None => forall|i: int, j: int|
                0 <= i < j < entries.len() ==> entries[i].0 != entries[j].0,
        },
{
    broadcast use vstd::std_specs::hash::group_hash_axioms;

    let mut met: HashSet<u32> = HashSet::new();
    let mut later: usize = 0;
    while later < entries.len()
        invariant
            later <= entries.len(),
            forall|i: int| 0 <= i < later ==> met@.contains(#[trigger] entries[i].0),
            forall|id: u32| #[trigger]
                met@.contains(id) ==> exists|i: int| 0 <= i < later && entries[i].0 == id,
            forall|i: int, j: int| 0 <= i < j < later ==> entries[i].0 != entries[j].0,
        decreases entries.len() - later,
    {
        let id: u32 = entries[later].0;
        let fresh: bool = met.insert(id);
        if !fresh {
            return Some(later);
        }
        later += 1;
    }
    None
}

/// A number drawn from the bytes of a text.
spec fn mark_of_bytes(bytes: Seq<u8>) -> u64
    decreases bytes.len(),
{
    if bytes.len() == 0 {
        0
    } else {
        ((mark_of_bytes(bytes.drop_last()) * 31 + bytes.last()) % 4294967291) as u64
    }
}

/// The mark of the key of entry `i`: a number drawn from the text, so that
/// entries with the same key have the same mark.
spec fn mark_at(entries: Seq<(String, DirectionTable)>, i: int) -> u64 {
    mark_of_bytes(encode_utf8(entries[i].0@))
}

/// `previous` leads from each of the first `n` entries to the latest entry
/// before it that has the same mark, where there is one.
spec fn chained(
    entries: Seq<(String, DirectionTable)>,
    previous: Seq<Option<usize>>,
    n: int,
) -> bool {
    &&& previous.len() == n
    &&& forall|i: int|
        0 <= i < n && (#[trigger] previous[i]) is Some ==> previous[i]->0 < i && mark_at(
            entries,
            previous[i]->0 as int,
        ) == mark_at(entries, i)
    &&& forall|i: int, j: int|
        #![trigger mark_at(entries, i), mark_at(entries, j)]
        0 <= j < i < n && mark_at(entries, i) == mark_at(entries, j) ==> previous[i] is Some && j
            <= previous[i]->0
}

/// `newest` has, for each mark among the first `n` entries, the latest of
/// them with that mark.
spec fn topped(
    entries: Seq<(String, DirectionTable)>,
    newest: Map<u64, usize>,
    n: int,
) -> bool {
    &&& forall|m: u64| #[trigger]
        newest.contains_key(m) ==> newest[m] < n && mark_at(entries, newest[m] as int) == m
    &&& forall|i: int|
        0 <= i < n ==> newest.contains_key(#[trigger] mark_at(entries, i)) && i <= newest[mark_at(
            entries,
            i,
        )]
}

/// No entry after `cursor` and before `later` that has the mark of entry
/// `later` has its key.
spec fn cleared(
    entries: Seq<(String, DirectionTable)>,
    cursor: Option<usize>,
    later: int,
) -> bool {
    forall|j: int|
        0 <= j < later && #[trigger] mark_at(entries, j) == mark_at(entries, later) && (cursor
            matches Some(at) ==> at < j) ==> entries[j].0@ != entries[later].0@
}

fn mark_text(key: &str) -> (mark: u64)
    ensures
        mark == mark_of_bytes(encode_utf8(key@)),
{
    let bytes = key.as_bytes();
    let mut mark: u64 = 0;
    let mut at: usize = 0;
    while at < bytes.len()
        invariant
            at <= bytes.len(),
            mark == mark_of_bytes(bytes@.take(at as int)),
            mark < 4294967291,
        decreases bytes.len() - at,
    {
        assert(bytes@.take(at + 1).drop_last() =~= bytes@.take(at as int));
        mark = (mark * 31 + bytes[at] as u64) % 4294967291;
        at += 1;
    }
    assert(bytes@.take(at as int) =~= bytes@);
    mark
}

/// The position of the first entry whose key an earlier entry has. A key
/// is compared with the earlier keys of the same mark only, which are met
/// by starting at the latest of them and following `previous`.
fn first_repeated_key(entries: &Vec<(String, DirectionTable)>) -> (found: Option<usize>)
    ensures
        match found {
            Some(later) => {
                &&& later < entries.len()
                &&& forall|i: int, j: int| 0 <= i < j < later ==> entries[i].0@ != entries[j].0@
                &&& exists|i: int| 0 <= i < later && entries[i].0@ == entries[later as int].0@
            },
            None => forall|i: int, j: int|
                0 <= i < j < entries.len() ==> entries[i].0@ != entries[j].0@,
        },
{
    broadcast use vstd::std_specs::hash::group_hash_axioms;

    let mut newest: HashMap<u64, usize> = HashMap::new();
    let mut previous: Vec<Option<usize>> = Vec::new();
    let mut later: usize = 0;
    while later < entries.len()
        invariant
            later <= entries.len(),
            forall|i: int, j: int| 0 <= i < j < later ==> entries[i].0@ != entries[j].0@,
            chained(entries@, previous@, later as int),
            topped(entries@, newest@, later as int),
        decreases entries.len() - later,
    {
        let key_mark: u64 = mark_text(entries[later].0.as_str());
        let head: Option<usize> = match newest.get(&key_mark) {
            Some(at) => Some(*at),
            None => None,
        };
        let mut cursor: Option<usize> = head;
        while cursor.is_some()
            invariant
                later < entries.len(),
                key_mark == mark_at(entries@, later as int),
                forall|i: int, j: int| 0 <= i < j < later ==> entries[i].0@ != entries[j].0@,
                chained(entries@, previous@, later as int),
                cursor matches Some(at) ==> at < later && mark_at(entries@, at as int) == key_mark,
                cleared(entries@, cursor, later as int),
            decreases
                match cursor {
                    Some(at) => at + 1,
                    None => 0,
                },
        {
            let at: usize = cursor.unwrap();
            if entries[at].0 == entries[later].0 {
                return Some(later);
            }
            cursor = previous[at];
        }
        assert forall|j: int| 0 <= j < later implies #[trigger] entries[j].0@
            != entries[later as int].0@ by {
            if entries[j].0@ == entries[later as int].0@ {
                assert(mark_at(entries@, j) == key_mark);
            }
        }
        previous.push(head);
        newest.insert(key_mark, later);
        later += 1;
    }
    None
}

impl HintIndex {
    /// Builds the index from the two tables of records. The steps of each
    /// direction stay in the order given. Entries of an identifier list
    /// that stand for no identifier are dropped. Records that cannot be
    /// made into an index are refused, with the first fault.
    ///
    /// An index is meant to be built once and kept: its tables are not
    /// freed before the process ends.
    pub fn build(tables: &[RawTable], names: &[RawName]) -> (built: Result<
        HintIndex,
        BuildError,
    >)
        ensures
            match built {
                Ok(index) => {
                    &&& accepted(tables@, names@)
                    &&& holds_names(names@, index.names())
                    &&& holds_tables(tables@, index.hints())
                },
                Err(error) => rejects(tables@, names@, error),
            },
    {
        if tables.len() > u32::MAX as usize || names.len() > u32::MAX as usize {
            return Err(BuildError::TooManyRecords);
        }
        let mut named: Vec<(u32, HintName)> = Vec::new();
        let mut at: usize = 0;
        while at < names.len()
            invariant
                at <= names.len(),
                named.len() == at,
                sizes_fit(tables@, names@),
                names_valid(names@, at as int),
                forall|i: int|
                    0 <= i < at ==> name_id(names@, i) == Some((#[trigger] named[i]).0)
                        && named[i].1@ == names[i].names@,
            decreases names.len() - at,
        {
            match parse_hint_id(names[at].key.as_str()) {
                Some(id) => {
                    named.push((id, names[at].names.duplicate()));
                },
                None => {
                    return Err(BuildError::InvalidNameKey { record: at });
                },
            }
            at += 1;
        }
        match first_repeated_id(&named) {
            Some(later) => {
                proof {
                    assert forall|i: int, j: int| 0 <= i < j < later implies #[trigger] name_id(
                        names@,
                        i,
                    ) != #[trigger] name_id(names@, j) by {
                        assert(named[i].0 != named[j].0);
                    }
                }
                return Err(BuildError::DuplicateName { record: later });
            },
            None => {},
        }
        assert(names_distinct(names@, names.len() as int)) by {
            assert forall|i: int, j: int| 0 <= i < j < names.len() implies #[trigger] name_id(
                names@,
                i,
            ) != #[trigger] name_id(names@, j) by {
                assert(named[i].0 != named[j].0);
            }
        }
        let mut filed: Vec<(String, DirectionTable)> = Vec::new();
        let mut at: usize = 0;
        while at < tables.len()
            invariant
                at <= tables.len(),
                filed.len() == at,
                sizes_fit(tables@, names@),
                names_accepted(names@),
                slots_counted(tables@, at as int),
                forall|i: int|
                    0 <= i < at ==> (#[trigger] filed[i]).0@ == table_key(tables@, i) && table_view(
                        filed[i].1,
                    ) == built_table(tables[i].directions@),
            decreases tables.len() - at,
        {
            match table_of(&tables[at].directions) {
                Some(table) => {
                    filed.push((tables[at].key.clone(), table));
                },
                None => {
                    return Err(BuildError::SlotCount { record: at });
                },
            }
            at += 1;
        }
        match first_repeated_key(&filed) {
            Some(later) => {
                proof {
                    assert forall|i: int, j: int| 0 <= i < j < later implies #[trigger] table_key(
                        tables@,
                        i,
                    ) != #[trigger] table_key(tables@, j) by {
                        assert(filed[i].0@ != filed[j].0@);
                    }
                }
                return Err(BuildError::DuplicateCoordinate { record: later });
            },
            None => {},
        }
        assert(keys_distinct(tables@, tables.len() as int)) by {
            assert forall|i: int, j: int| 0 <= i < j < tables.len() implies #[trigger] table_key(
                tables@,
                i,
            ) != #[trigger] table_key(tables@, j) by {
                assert(filed[i].0@ != filed[j].0@);
            }
        }
        let names_map = names_map_of(&named);
        let hints_map = hints_map_of(&filed);
        let index = HintIndex::from_tables(names_map, hints_map);
        proof {
            assert forall|i: int|
                0 <= i < names.len() && (#[trigger] name_id(names@, i)) is Some implies {
                &&& index.names().contains_key(name_id(names@, i)->0)
                &&& index.names()[name_id(names@, i)->0] == names[i].names@
            } by {
                assert(named[i].0 == name_id(names@, i)->0);
            }
            assert forall|i: int| 0 <= i < tables.len() implies index.hints().contains_key(
                #[trigger] table_key(tables@, i),
            ) && index.hints()[table_key(tables@, i)] == built_table(tables[i].directions@) by {
                assert(filed[i].0@ == table_key(tables@, i));
            }
        }
        Ok(index)
    }
}

} // verus!
