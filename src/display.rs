//! What a finished listing turns into: the ordering and numbering pass, the
//! choice of output, and the table rows.

use vstd::prelude::*;

use crate::file_ops::{add_line_numbers, same_but_line};
use crate::sorting::{sort_files, sorted_by};
use crate::text::nat_text;
use crate::types::{entry_type_text, FileEntry, SortOrder, TableRowNoLine, TableRowWithLine};

verus! {

/// The listing in the order asked for: sorted where an order was chosen,
/// else as read.
pub open spec fn ordered(files: Seq<FileEntry>, sort_order: Option<SortOrder>) -> Seq<FileEntry> {
    match sort_order {
        Some(o) => sorted_by(o, files),
        None => files,
    }
}

/// Sorts the merged listing and then, where line numbers are shown, numbers
/// it 1, 2, ... in its final order.
pub fn arrange_listing(files: &mut Vec<FileEntry>, sort_order: &Option<SortOrder>, show_line_numbers: bool)
    ensures
        final(files)@.len() == old(files)@.len(),
        forall|i: int|
            0 <= i < final(files)@.len() ==> if show_line_numbers {
                (#[trigger] final(files)@[i]).line_number@ == nat_text((i + 1) as nat)
                    && same_but_line(final(files)@[i], ordered(old(files)@, *sort_order)[i])
            } else {
                final(files)@[i] == ordered(old(files)@, *sort_order)[i]
            },
{
    if let Some(o) = sort_order {
        sort_files(files, o);
    }
    proof {
        if let Some(o) = *sort_order {
            crate::sorting::lemma_sort_len(o, old(files)@);
        }
    }
    if show_line_numbers {
        add_line_numbers(files);
    }
}

/// What the table view shows for a listing.
#[derive(Clone, Copy, Debug, PartialEq, Eq, Structural)]
pub enum ListingOutcome {
    /// Nothing matched the name filter: an error.
    NoMatches,
    /// The directory has nothing in it.
    EmptyDirectory,
    /// The entries, as a table.
    Rows,
}

/// The outcome for a listing of `count` entries, with or without a name
/// filter.
pub open spec fn outcome_of(count: nat, has_pattern: bool) -> ListingOutcome {
    if count > 0 {
        ListingOutcome::Rows
    } else if has_pattern {
        ListingOutcome::NoMatches
    } else {
        ListingOutcome::EmptyDirectory
    }
}

/// Decides what the table view shows.
pub fn listing_outcome(count: usize, has_pattern: bool) -> (r: ListingOutcome)
    ensures
        r == outcome_of(count as nat, has_pattern),
{
    if count > 0 {
        ListingOutcome::Rows
    } else if has_pattern {
        ListingOutcome::NoMatches
    } else {
        ListingOutcome::EmptyDirectory
    }
}

impl ListingOutcome {
    /// The process status that goes with the outcome: 1 when nothing matched.
    pub fn exit_status(&self) -> (r: i32)
        ensures
            r == (if *self == ListingOutcome::NoMatches {
                1i32
            } else {
                0i32
            }),
    {
        match self {
            ListingOutcome::NoMatches => 1,
            _ => 0,
        }
    }
}

/// How a listing is written out.
#[derive(Clone, Copy, Debug, PartialEq, Eq, Structural)]
pub enum OutputMode {
    /// Bare names, one per line, when the output is not a terminal.
    NamesOnly,
    Json,
    Table,
}

/// Chooses the output: bare names when standard output is not a terminal,
/// else JSON where asked for, else a table.
pub fn output_mode(is_terminal: bool, json: bool) -> (r: OutputMode)
    ensures
        r == (if !is_terminal {
            OutputMode::NamesOnly
        } else if json {
            OutputMode::Json
        } else {
            OutputMode::Table
        }),
{
    if !is_terminal {
        OutputMode::NamesOnly
    } else if json {
        OutputMode::Json
    } else {
        OutputMode::Table
    }
}

/// The table rows of a listing, with the line number column.
pub fn table_rows_with_line(files: &Vec<FileEntry>) -> (r: Vec<TableRowWithLine>)
    ensures
        r@.len() == files@.len(),
        forall|i: int|
            0 <= i < r@.len() ==> {
                let row = #[trigger] r@[i];
                let e = files@[i];
                &&& row.line_number == e.line_number
                &&& row.name == e.name
                &&& row.e_type@ == entry_type_text(e.e_type)
                &&& row.permissions == e.permissions
                &&& row.size == e.size
                &&& row.modified == e.modified
            },
{
    let mut rows: Vec<TableRowWithLine> = Vec::new();
    let mut i: usize = 0;
    while i < files.len()
        invariant
            i <= files@.len(),
            rows@.len() == i,
            forall|k: int|
                0 <= k < i ==> {
                    let row = #[trigger] rows@[k];
                    let e = files@[k];
                    &&& row.line_number == e.line_number
                    &&& row.name == e.name
                    &&& row.e_type@ == entry_type_text(e.e_type)
                    &&& row.permissions == e.permissions
                    &&& row.size == e.size
                    &&& row.modified == e.modified
                },
        decreases files@.len() - i,
    {
        let e = &files[i];
        rows.push(
            TableRowWithLine {
                line_number: e.line_number.clone(),
                name: e.name.clone(),
                e_type: e.e_type.label(),
                permissions: e.permissions.clone(),
                size: e.size.clone(),
                modified: e.modified.clone(),
            },
        );
        i = i + 1;
    }
    rows
}

/// The table rows of a listing, without the line number column.
pub fn table_rows_no_line(files: &Vec<FileEntry>) -> (r: Vec<TableRowNoLine>)
    ensures
        r@.len() == files@.len(),
        forall|i: int|
            0 <= i < r@.len() ==> {
                let row = #[trigger] r@[i];
                let e = files@[i];
                &&& row.name == e.name
                &&& row.e_type@ == entry_type_text(e.e_type)
                &&& row.permissions == e.permissions
                &&& row.size == e.size
                &&& row.modified == e.modified
            },
{
    let mut rows: Vec<TableRowNoLine> = Vec::new();
    let mut i: usize = 0;
    while i < files.len()
        invariant
            i <= files@.len(),
            rows@.len() == i,
            forall|k: int|
                0 <= k < i ==> {
                    let row = #[trigger] rows@[k];
                    let e = files@[k];
                    &&& row.name == e.name
                    &&& row.e_type@ == entry_type_text(e.e_type)
                    &&& row.permissions == e.permissions
                    &&& row.size == e.size
                    &&& row.modified == e.modified
                },
        decreases files@.len() - i,
    {
        let e = &files[i];
        rows.push(
            TableRowNoLine {
                name: e.name.clone(),
                e_type: e.e_type.label(),
                permissions: e.permissions.clone(),
                size: e.size.clone(),
                modified: e.modified.clone(),
            },
        );
        i = i + 1;
    }
    rows
}

} // verus!
