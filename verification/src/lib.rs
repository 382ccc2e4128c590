//! Nearest-hint lookup along the four rays of a grid cell.
//!
//! A [`HintIndex`] is built once, by [`HintIndex::build`], from two tables
//! of records: the steps along each ray of each cell, and the names of each
//! hint. It is read-only afterwards and can be shared freely.
//!
//! [`get_hints_for_direction`] answers the one question asked of it: for a
//! cell and a direction, which hints are seen along the ray, and where is
//! each of them closest? It walks the stored steps in order and keeps, for
//! every hint identifier that has a name record, the closest step on which
//! it is seen; of equally close steps the first stays.
//! [`get_names_for_language`] gives the names of hints in one language.
//!
//! The modules, from the leaves up:
//! - [`decimal`], [`key`], [`ident`]: integers in decimal, the key text of
//!   a cell, identifiers as the data source writes them;
//! - [`data`]: the records and the index;
//! - [`perfect`]: the two tables of the index, kept in `phf` maps;
//! - [`builder`]: from records to index;
//! - [`resolve`], [`language`]: the queries.

pub mod builder;
pub mod data;
pub mod decimal;
pub mod ident;
pub mod key;
pub mod language;
pub mod perfect;
pub mod resolve;

pub use builder::{BuildError, RawName, RawStep, RawTable};
pub use data::{
    get_hints, get_hints_map, get_names, get_names_map, DirectionTable, Hint, HintIndex, HintName,
    HintStep,
};
pub use language::{get_names_for_language, Language};
pub use resolve::{get_hints_for_direction, get_steps, get_unnamed_for_direction, resolve_steps};
