//! Reading and writing of iCalendar content lines: folding and unfolding of
//! physical lines, the content-line grammar, and the tree of nested objects
//! that `BEGIN` and `END` lines delimit.
//!
//! Reading goes from bytes to logical lines (`unfold`), from a logical line
//! to a content line (`content_line`), and from content lines to an object
//! (`ical_object`). Writing goes the other way, with `fold` in the place of
//! `unfold`. The modules `conformance`, `unfold_shape`, `fold_round_trip`,
//! `line_round_trip` and `object_round_trip` hold what is proved of reading
//! and writing together.

pub mod charset;
pub mod conformance;
pub mod content_line;
pub mod error;
pub mod fold;
pub mod fold_round_trip;
pub mod ical_object;
pub mod line_round_trip;
pub mod object_round_trip;
pub mod scan;
pub mod text;
pub mod unfold;
pub mod unfold_shape;

pub use charset::Charset;
pub use content_line::{ContentLine, Param};
pub use error::{Error, GrammarRule, StructuralKind};
pub use fold::{fold, fold_and_join, fold_with_max_length};
pub use ical_object::{ICalObject, LineCursor};
pub use unfold::Unfold;
