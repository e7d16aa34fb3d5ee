//! Deterministic stand-ins for external commands.
//!
//! A test that runs an external command by name can put a mock in its place:
//! a script that copies recorded bytes to its standard output and standard
//! error and exits with a recorded status. The script stands in a directory
//! of its own, and that directory is the first entry of the command search
//! path for as long as the mock lives.
//!
//! This library holds what is decided about such a mock:
//!
//! - [`script`]: the text of the script, how it names its files, the names a
//!   command can have, and where the script stands;
//! - [`search_path`]: the entries of the search path variable, the value with
//!   a directory put in front, and the value with a directory taken out,
//!   whether an entry spells the directory or is a link to it;
//! - [`directory`]: when two resolved paths name the same directory;
//! - [`mock`]: the registration of one mock and its release, once;
//! - [`history`]: what any run of registrations and releases leaves behind;
//! - [`error`]: the kinds of failure;
//! - [`pieces`]: cutting byte strings at a separator and joining them.
//!
//! It touches neither files nor the environment. Its caller creates the
//! files, reads the variable, follows the links of its entries, hands the
//! value and the resolved paths in and writes the new value back, under one
//! lock for the whole process.

pub mod directory;
pub mod error;
pub mod history;
pub mod mock;
pub mod pieces;
pub mod script;
pub mod search_path;
