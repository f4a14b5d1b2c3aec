//! Splitting one large JSON array of objects into smaller JSON arrays.
//!
//! The source is a byte stream of the shape `[obj,obj,...]`. Object boundaries are
//! found by counting braces, without parsing JSON; complete objects are copied into
//! numbered chunks, and a chunk is closed once the source bytes consumed for it
//! exceed a threshold. An object is never divided between two chunks, and the
//! separator between two objects, the comma with the whitespace before it, reaches
//! a chunk only where both objects do.
//!
//! Known limits. Braces inside string values are counted like any other brace.
//! The source is read in windows; if a window holds no complete object, because an
//! object with the separator before it is longer than the window, because braces
//! do not balance, or because the source has ended, the run stops there and what
//! follows reaches no chunk.
//!
//! - [`depth`]: the brace counter.
//! - [`scan`]: the end of the first object in a window, and the separator before it.
//! - [`splitter`]: the cursor, the open chunk, and the step taken on each window.
//! - [`chunk`]: the brackets around a chunk.
//! - [`naming`]: the names of the chunk files.
//! - [`run`]: a whole run over a source in memory.
//! - [`bounds`]: what holds of the chunks of every run.
//! - [`count`]: how the number of chunks depends on the chunk size.
//! - [`array`], [`wellformed`]: what holds of a run over a well-formed array.

pub mod array;
pub mod bounds;
pub mod chunk;
pub mod count;
pub mod depth;
pub mod naming;
pub mod run;
pub mod scan;
pub mod splitter;
pub mod wellformed;
