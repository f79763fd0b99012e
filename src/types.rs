//! The records that flow through a listing: options, raw metadata, entries
//! and table rows.

use vstd::prelude::*;

verus! {

/// How modification times are rendered.
#[derive(Clone, Copy, Debug, PartialEq, Eq, Structural)]
pub enum TimeFormat {
    Utc,
    Local,
    Unix,
    Iso8601,
    Rfc3339,
    Utf,
    Custom,
}

/// The order a listing is sorted into.
#[derive(Clone, Copy, Debug, PartialEq, Eq, Structural)]
pub enum SortOrder {
    /// Newest modification first.
    UpToDate,
    /// Oldest modification first.
    DownToDate,
    LargestSize,
    SmallestSize,
    /// By name, case folded, trailing `/` ignored.
    AlphabeticalOrder,
    AlphabeticalReverse,
    DirFirst,
    DirLast,
}

/// Whether an entry is a plain file or a directory.
#[derive(Clone, Copy, Debug, PartialEq, Eq, Structural)]
pub enum EntryType {
    File,
    Dir,
}

/// How permission bits are rendered.
#[derive(Clone, Copy, Debug, PartialEq, Eq, Structural)]
pub enum PermissionStyle {
    /// Nine `rwx` characters for owner, group and other.
    Rwx,
    /// Three octal digits.
    Octal,
    /// Whether the owner may write.
    Owner,
}

/// The text shown for an entry type.
pub open spec fn entry_type_text(t: EntryType) -> Seq<char> {
    match t {
        EntryType::File => "File"@,
        EntryType::Dir => "Dir"@,
    }
}

impl EntryType {
    /// `"File"` or `"Dir"`.
    pub fn label(&self) -> (r: String)
        ensures
            r@ == entry_type_text(*self),
    {
        match self {
            EntryType::File => String::from_str("File"),
            EntryType::Dir => String::from_str("Dir"),
        }
    }
}

/// An instant as seconds and nanoseconds since the Unix epoch.
#[derive(Clone, Copy, Debug, PartialEq, Eq, Structural)]
pub struct Timestamp {
    pub secs: i64,
    pub nanos: u32,
}

/// An instant in nanoseconds since the epoch.
pub open spec fn nanos_since_epoch(t: Timestamp) -> int {
    t.secs as int * 1_000_000_000 + t.nanos as int
}

impl Timestamp {
    /// The instant `secs` seconds and `nanos` nanoseconds after the epoch, or
    /// before it where `before` is set; `None` where the seconds do not fit.
    pub fn from_offset(before: bool, secs: u64, nanos: u32) -> (r: Option<Timestamp>)
        requires
            nanos < 1_000_000_000,
        ensures
            r is Some <==> (secs <= i64::MAX),
            r matches Some(t) ==> t.nanos < 1_000_000_000 && nanos_since_epoch(t) == (if before {
                -(secs as int * 1_000_000_000 + nanos as int)
            } else {
                secs as int * 1_000_000_000 + nanos as int
            }),
    {
        if secs > i64::MAX as u64 {
            return None;
        }
        if !before {
            Some(Timestamp { secs: secs as i64, nanos })
        } else if nanos == 0 {
            Some(Timestamp { secs: -(secs as i64), nanos: 0 })
        } else {
            let t = Timestamp { secs: -(secs as i64) - 1, nanos: 1_000_000_000 - nanos };
            assert(nanos_since_epoch(t) == -(secs as int * 1_000_000_000 + nanos as int)) by (nonlinear_arith)
                requires
                    t.secs == -(secs as int) - 1,
                    t.nanos == 1_000_000_000 - nanos,
            ;
            Some(t)
        }
    }
}

/// `a` is not later than `b`.
pub open spec fn not_later(a: Timestamp, b: Timestamp) -> bool {
    a.secs < b.secs || (a.secs == b.secs && a.nanos <= b.nanos)
}

/// What the listing reads of one filesystem object.
#[derive(Clone, Copy, Debug)]
pub struct FileMetadata {
    /// The length the filesystem reports.
    pub size: u64,
    pub modified: Timestamp,
    pub is_dir: bool,
    /// The permission bits (the low nine are used).
    pub mode: u32,
    /// The summed size of every file below a directory, where it was measured.
    pub tree_size: Option<u64>,
}

/// One name read from a directory, with its metadata where that could be read.
#[derive(Clone, Debug)]
pub struct DirItem {
    pub name: String,
    pub metadata: Option<FileMetadata>,
}

/// The items read from one directory of the scan set.
#[derive(Clone, Debug)]
pub struct DirListing {
    pub path: String,
    pub items: Vec<DirItem>,
}

/// One row of a listing.
#[derive(Clone, Debug)]
pub struct FileEntry {
    /// Position in the listing, or empty when line numbers are off.
    pub line_number: String,
    /// Display name; directories end in `/`.
    pub name: String,
    pub e_type: EntryType,
    pub permissions: String,
    pub size: String,
    pub modified: String,
    /// Sort key for sizes.
    pub raw_size: u64,
    /// Sort key for modification times.
    pub raw_modified: Timestamp,
}

/// Date rendering settings.
#[derive(Clone, Debug)]
pub struct TimeSettings {
    pub format: TimeFormat,
    /// An IANA time zone name.
    pub timezone: String,
    /// A strftime pattern, used by `TimeFormat::Custom`.
    pub custom_format: String,
    /// Whether the time of day is shown.
    pub toggle_clock: bool,
}

/// Everything that decides how one directory is turned into entries.
#[derive(Clone, Debug)]
pub struct ScanConfig {
    /// Keep only names containing this, case-insensitively.
    pub pattern: Option<String>,
    /// Drop names containing any of these, case-insensitively.
    pub exclude: Option<Vec<String>>,
    pub show_line_numbers: bool,
    pub permission_style: PermissionStyle,
    pub time: TimeSettings,
    /// Report a directory's summed contents instead of its own length.
    pub deep: bool,
    /// Put a `./` entry for the working directory first.
    pub show_current_dir: bool,
}

/// A table row with a line number column.
#[derive(Clone, Debug)]
pub struct TableRowWithLine {
    pub line_number: String,
    pub name: String,
    pub e_type: String,
    pub permissions: String,
    pub size: String,
    pub modified: String,
}

/// A table row without a line number column.
#[derive(Clone, Debug)]
pub struct TableRowNoLine {
    pub name: String,
    pub e_type: String,
    pub permissions: String,
    pub size: String,
    pub modified: String,
}

} // verus!
