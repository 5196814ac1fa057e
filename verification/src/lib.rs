//! The filesystem and provisioning core of a container-image build tool.
//!
//! The build context owns the directories to ensure, empty, remove, and
//! cache-mount inside the root being built, and commits them to a filesystem
//! at one explicit finalization point.  The package resolution pipeline
//! routes a requested package list through an ordered chain of handlers,
//! from the distribution-specific one down to a generic fallback, and fails
//! naming everything that no stage could satisfy.
//!
//! Filesystem mutation and the external collaborators (distribution package
//! handlers, the file downloader, the command runner) are modeled by
//! explicit in-memory values, so that every decision the core makes is
//! verified; a runner outside the library replays the same operations
//! against the real machine.

pub mod collab;
pub mod context;
pub mod dirset;
pub mod fsmodel;
pub mod packages;
pub mod path;
