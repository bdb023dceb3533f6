//! Discovery-side logic of the CodeWhale terminal workspace: agent
//! definitions, optional context files and language rules read from
//! markdown files, and the welcome screen's text.

pub mod agents;
pub mod contexts;
pub mod files;
pub mod markdown;
pub mod rules;
pub mod sorting;
pub mod text;
pub mod welcome;
