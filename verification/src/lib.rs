//! A verified core for listing the entries of a directory.
//!
//! One read of a directory yields, for each immediate entry, either the
//! entry's raw name bytes or an entry-level read failure. This library turns
//! such a read into the listing handed to a caller: the names of the
//! successfully read entries, in order, each decoded lossily into text, or
//! the error message when the directory could not be opened at all. The
//! filesystem access itself is input/output and stays outside the library;
//! callers hand in what the operating system returned.

pub mod listing;
pub mod lossy;

pub use listing::collect_names;
pub use listing::list_files;
