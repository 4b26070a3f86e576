//! Rendering tables as text.

use vstd::prelude::*;

use crate::models::table::{Table, TableView};

pub mod tsv;
pub use tsv::TsvFormatter;

pub mod listing;
pub mod report;

verus! {

/// The form in which a command writes its result.
#[derive(Clone, Copy, Debug, PartialEq, Eq, Structural)]
pub enum OutputFormat {
    /// Plain text for a reader
    Text,
    /// Tab-separated values
    Tsv,
    /// JSON
    Json,
}

impl OutputFormat {
    /// The name of the format, as it is written on the command line.
    pub open spec fn name(self) -> Seq<char> {
        match self {
            OutputFormat::Text => "text"@,
            OutputFormat::Tsv => "tsv"@,
            OutputFormat::Json => "json"@,
        }
    }

    /// The name of the format, as it is written on the command line.
    pub fn as_str(&self) -> (name: &'static str)
        ensures
            name@ == self.name(),
    {
        match self {
            OutputFormat::Text => "text",
            OutputFormat::Tsv => "tsv",
            OutputFormat::Json => "json",
        }
    }
}

/// A way to write a table as text.
pub trait OutputFormatter {
    /// The text that this formatter writes a table as.
    spec fn rendering(&self, table: TableView) -> Seq<char>;

    fn format(&self, table: &Table) -> (text: String)
        ensures
            text@ == self.rendering(table@),
    ;
}

} // verus!
