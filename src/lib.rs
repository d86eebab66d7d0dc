//! Dependency integrity audits for packages of dynamically linked ELF objects.
//!
//! The soname audit of a package lists what its ELF objects provide and need
//! (`elf`), registers which package owns each soname (`registry`), resolves what the
//! package's binaries need (`check`) and reports the declared dependencies that nothing
//! uses (`audit`). The closure audit expands packages into their dependency closure
//! (`closure`) and enumerates the elementary cycles of its graph (`cycles`). Both can
//! be written out as graphs (`graph`). `topic` writes the report on what a topic
//! branch changes, and `lint` checks the fields of package spec files.
pub mod audit;
pub mod check;
pub mod closure;
pub mod cycles;
pub mod elf;
pub mod graph;
pub mod lint;
pub mod names;
pub mod order;
pub mod registry;
pub mod text;
pub mod topic;
