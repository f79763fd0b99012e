//! Turning what was read from directories into listing entries: name filters,
//! entry records, the scan set and the merge of several directories.

use vstd::prelude::*;
use vstd::string::*;

use crate::text::{
    contains_folded, contains_text, decimal_text, is_substring, lower_of, nat_text, trim_end_of,
    trimmed_end,
};
use crate::types::{
    DirItem, DirListing, EntryType, FileEntry, FileMetadata, PermissionStyle, ScanConfig,
    TimeSettings, Timestamp,
};
use crate::utils::{
    datetime_text, format_datetime, format_permissions_octal, format_permissions_owner,
    format_permissions_rwx, format_size, octal_text, owner_text, rwx_text, size_text,
};

verus! {

/// A name passes the include filter: there is none, or the name contains it,
/// ignoring case.
pub open spec fn name_included(name: Seq<char>, pattern: Option<String>) -> bool {
    match pattern {
        None => true,
        Some(p) => is_substring(lower_of(p@), lower_of(name)),
    }
}

/// A name is caught by the exclude list: it contains one of its terms,
/// ignoring case.
pub open spec fn name_excluded(name: Seq<char>, exclude: Option<Vec<String>>) -> bool {
    match exclude {
        None => false,
        Some(v) => exists|i: int| 0 <= i < v@.len() && is_substring(lower_of((#[trigger] v@[i])@), lower_of(name)),
    }
}

/// Whether the name of an entry passes the include filter.
pub fn should_include_file(name: &str, pattern: &Option<String>) -> (r: bool)
    ensures
        r == name_included(name@, *pattern),
{
    match pattern {
        None => true,
        Some(p) => contains_folded(name, p.as_str()),
    }
}

/// Whether the name of an entry is caught by the exclude list.
pub fn should_exclude_file(name: &str, exclude_patterns: &Option<Vec<String>>) -> (r: bool)
    ensures
        r == name_excluded(name@, *exclude_patterns),
{
    match exclude_patterns {
        None => false,
        Some(list) => {
            let mut i: usize = 0;
            while i < list.len()
                invariant
                    *exclude_patterns == Some(*list),
                    i <= list@.len(),
                    forall|k: int| 0 <= k < i ==> !is_substring(lower_of((#[trigger] list@[k])@), lower_of(name@)),
                decreases list@.len() - i,
            {
                if contains_folded(name, list[i].as_str()) {
                    assert(is_substring(lower_of(list@[i as int]@), lower_of(name@)));
                    let ghost v = exclude_patterns->0;
                    assert(v@[i as int] == list@[i as int]);
                    assert(0 <= i < v@.len() && is_substring(lower_of(v@[i as int]@), lower_of(name@)));
                    return true;
                }
                i = i + 1;
            }
            false
        },
    }
}

/// The text of permission bits in a style.
pub open spec fn permission_text(mode: u32, style: PermissionStyle) -> Seq<char> {
    match style {
        PermissionStyle::Rwx => rwx_text(mode),
        PermissionStyle::Octal => octal_text(mode),
        PermissionStyle::Owner => owner_text(mode),
    }
}

/// Renders permission bits in a style.
pub fn format_permissions(mode: u32, style: PermissionStyle) -> (r: String)
    ensures
        r@ == permission_text(mode, style),
{
    match style {
        PermissionStyle::Rwx => format_permissions_rwx(mode),
        PermissionStyle::Octal => format_permissions_octal(mode),
        PermissionStyle::Owner => format_permissions_owner(mode),
    }
}

/// The size reported for an object: in deep mode a directory's measured
/// contents, else the length the filesystem gives.
pub open spec fn entry_size(meta: FileMetadata, is_dir: bool, deep: bool) -> u64 {
    if deep && is_dir && meta.tree_size is Some {
        meta.tree_size->0
    } else {
        meta.size
    }
}

/// The date column: the rendering of the modification time, or nothing where
/// it cannot be rendered.
pub open spec fn date_text(t: Timestamp, time: TimeSettings) -> Seq<char> {
    match datetime_text(t, time.format, time.timezone@, time.custom_format@, time.toggle_clock) {
        Some(s) => s,
        None => Seq::empty(),
    }
}

/// The line number column for position `k` (from 1), or nothing when line
/// numbers are off.
pub open spec fn line_text(cfg: ScanConfig, k: nat) -> Seq<char> {
    if cfg.show_line_numbers {
        nat_text(k)
    } else {
        Seq::empty()
    }
}

/// `e` is the entry for an object shown as `shown`, of type `kind`, with
/// metadata `meta`, at line `line`.
pub open spec fn is_entry(
    e: FileEntry,
    shown: Seq<char>,
    kind: EntryType,
    meta: FileMetadata,
    line: Seq<char>,
    cfg: ScanConfig,
) -> bool {
    let size = entry_size(meta, kind == EntryType::Dir, cfg.deep);
    &&& e.line_number@ == line
    &&& e.name@ == shown
    &&& e.e_type == kind
    &&& e.permissions@ == permission_text(meta.mode, cfg.permission_style)
    &&& e.size@ == size_text(size as nat)
    &&& e.modified@ == date_text(meta.modified, cfg.time)
    &&& e.raw_size == size
    &&& e.raw_modified == meta.modified
}

/// The type of an object.
pub open spec fn kind_of(meta: FileMetadata) -> EntryType {
    if meta.is_dir {
        EntryType::Dir
    } else {
        EntryType::File
    }
}

/// The displayed name of an object: a directory's ends in `/`.
pub open spec fn shown_name(name: Seq<char>, meta: FileMetadata) -> Seq<char> {
    if meta.is_dir {
        name + "/"@
    } else {
        name
    }
}

/// An item read from a directory is listed: its name passes both filters and
/// its metadata could be read.
pub open spec fn is_listed(item: DirItem, cfg: ScanConfig) -> bool {
    &&& item.metadata is Some
    &&& name_included(item.name@, cfg.pattern)
    &&& !name_excluded(item.name@, cfg.exclude)
}

/// The items of a directory that are listed, in the order they were read.
pub open spec fn listed(items: Seq<DirItem>, cfg: ScanConfig) -> Seq<DirItem>
    decreases items.len(),
{
    if items.len() == 0 {
        Seq::empty()
    } else if is_listed(items.last(), cfg) {
        listed(items.drop_last(), cfg).push(items.last())
    } else {
        listed(items.drop_last(), cfg)
    }
}

/// 1 where a `./` entry leads the directory's entries, else 0.
pub open spec fn lead(current_dir: Option<FileMetadata>, cfg: ScanConfig) -> nat {
    if cfg.show_current_dir && current_dir is Some {
        1
    } else {
        0
    }
}

/// How many entries one directory gives.
pub open spec fn scan_len(items: Seq<DirItem>, current_dir: Option<FileMetadata>, cfg: ScanConfig) -> nat {
    lead(current_dir, cfg) + listed(items, cfg).len()
}

/// `e` is the entry at position `k` of a directory's scan, its name behind
/// `prefix`.
pub open spec fn scanned_at(
    e: FileEntry,
    items: Seq<DirItem>,
    current_dir: Option<FileMetadata>,
    cfg: ScanConfig,
    k: int,
    prefix: Seq<char>,
) -> bool {
    let off = lead(current_dir, cfg) as int;
    if k < off {
        is_entry(e, prefix + "./"@, EntryType::Dir, current_dir->0, line_text(cfg, (k + 1) as nat), cfg)
    } else {
        let item = listed(items, cfg)[k - off];
        let meta = item.metadata->0;
        is_entry(
            e,
            prefix + shown_name(item.name@, meta),
            kind_of(meta),
            meta,
            line_text(cfg, (k + 1) as nat),
            cfg,
        )
    }
}

fn line_string(config: &ScanConfig, k: u64) -> (r: String)
    ensures
        r@ == line_text(*config, k as nat),
{
    if config.show_line_numbers {
        decimal_text(k)
    } else {
        String::new()
    }
}

/// Builds the entry for an object and appends it to `data`.
fn map_data(
    data: &mut Vec<FileEntry>,
    shown: String,
    kind: EntryType,
    meta: &FileMetadata,
    line_number: String,
    config: &ScanConfig,
)
    ensures
        final(data)@.len() == old(data)@.len() + 1,
        final(data)@.subrange(0, old(data)@.len() as int) == old(data)@,
        is_entry(final(data)@.last(), shown@, kind, *meta, line_number@, *config),
{
    let is_dir = match kind {
        EntryType::Dir => true,
        EntryType::File => false,
    };
    let size = if config.deep && is_dir {
        match meta.tree_size {
            Some(t) => t,
            None => meta.size,
        }
    } else {
        meta.size
    };
    let modified = match format_datetime(
        meta.modified,
        &config.time.format,
        config.time.timezone.as_str(),
        config.time.custom_format.as_str(),
        config.time.toggle_clock,
    ) {
        Some(text) => text,
        None => String::new(),
    };
    let entry = FileEntry {
        line_number,
        name: shown,
        e_type: kind,
        permissions: format_permissions(meta.mode, config.permission_style),
        size: format_size(size),
        modified,
        raw_size: size,
        raw_modified: meta.modified,
    };
    data.push(entry);
    assert(data@.subrange(0, old(data)@.len() as int) =~= old(data)@);
}

proof fn lemma_listed_len(items: Seq<DirItem>, cfg: ScanConfig)
    ensures
        listed(items, cfg).len() <= items.len(),
    decreases items.len(),
{
    if items.len() > 0 {
        lemma_listed_len(items.drop_last(), cfg);
    }
}

proof fn lemma_listed_step(items: Seq<DirItem>, cfg: ScanConfig, i: int)
    requires
        0 <= i < items.len(),
    ensures
        listed(items.subrange(0, i + 1), cfg) == if is_listed(items[i], cfg) {
            listed(items.subrange(0, i), cfg).push(items[i])
        } else {
            listed(items.subrange(0, i), cfg)
        },
{
    assert(items.subrange(0, i + 1).drop_last() =~= items.subrange(0, i));
}

/// Appends the entries of one directory to `out`, each name behind `prefix`:
/// first the `./` entry where asked for and available, then every listed item
/// in the order read, numbered from 1.
fn scan_into(
    out: &mut Vec<FileEntry>,
    items: &Vec<DirItem>,
    current_dir: &Option<FileMetadata>,
    config: &ScanConfig,
    prefix: &str,
)
    requires
        old(out)@.len() + items@.len() + 2 <= u64::MAX,
    ensures
        final(out)@.len() == old(out)@.len() + scan_len(items@, *current_dir, *config),
        final(out)@.subrange(0, old(out)@.len() as int) == old(out)@,
        forall|k: int|
            0 <= k < scan_len(items@, *current_dir, *config) ==> scanned_at(
                #[trigger] final(out)@[old(out)@.len() + k],
                items@,
                *current_dir,
                *config,
                k,
                prefix@,
            ),
{
    let ghost start = out@.len();
    let mut line: u64 = 1;
    if config.show_current_dir {
        if let Some(meta) = current_dir {
            let mut shown = String::from_str(prefix);
            shown.append("./");
            let ln = line_string(config, line);
            map_data(out, shown, EntryType::Dir, meta, ln, config);
            line = line + 1;
        }
    }
    let ghost off = lead(*current_dir, *config) as int;
    assert(line == off + 1);
    assert forall|k: int| 0 <= k < off implies scanned_at(
        #[trigger] out@[start + k],
        items@,
        *current_dir,
        *config,
        k,
        prefix@,
    ) by {}
    let mut i: usize = 0;
    while i < items.len()
        invariant
            i <= items@.len(),
            start + items@.len() + 2 <= u64::MAX,
            off == lead(*current_dir, *config),
            line == off + listed(items@.subrange(0, i as int), *config).len() + 1,
            out@.len() == start + line - 1,
            out@.subrange(0, start as int) == old(out)@,
            start == old(out)@.len(),
            forall|k: int|
                0 <= k < off + listed(items@.subrange(0, i as int), *config).len() ==> scanned_at(
                    #[trigger] out@[start + k],
                    items@.subrange(0, i as int),
                    *current_dir,
                    *config,
                    k,
                    prefix@,
                ),
        decreases items@.len() - i,
    {
        let ghost before = out@;
        proof {
            lemma_listed_step(items@, *config, i as int);
            lemma_listed_len(items@.subrange(0, i as int), *config);
        }
        let item = &items[i];
        if let Some(meta) = &item.metadata {
            if should_include_file(item.name.as_str(), &config.pattern) && !should_exclude_file(
                item.name.as_str(),
                &config.exclude,
            ) {
                let mut shown = String::from_str(prefix);
                shown.append(item.name.as_str());
                let kind = if meta.is_dir {
                    shown.append("/");
                    EntryType::Dir
                } else {
                    EntryType::File
                };
                let ln = line_string(config, line);
                map_data(out, shown, kind, meta, ln, config);
                line = line + 1;
            }
        }
        proof {
            let lp = listed(items@.subrange(0, i as int), *config);
            let ln = listed(items@.subrange(0, i + 1), *config);
            assert forall|k: int| 0 <= k < off + ln.len() implies scanned_at(
                #[trigger] out@[start + k],
                items@.subrange(0, i + 1),
                *current_dir,
                *config,
                k,
                prefix@,
            ) by {
                if k < off + lp.len() {
                    assert(out@[start + k] == before[start + k]);
                    assert(scanned_at(
                        before[start + k],
                        items@.subrange(0, i as int),
                        *current_dir,
                        *config,
                        k,
                        prefix@,
                    ));
                    if k >= off {
                        assert(ln[k - off] == lp[k - off]);
                    }
                } else {
                    assert(ln[k - off] == items@[i as int]);
                    assert(prefix@ + (item.name@ + "/"@) =~= prefix@ + item.name@ + "/"@);
                }
            }
            assert(out@.subrange(0, start as int) =~= before.subrange(0, start as int));
        }
        i = i + 1;
    }
    assert(items@.subrange(0, items@.len() as int) =~= items@);
}

/// The entries of one directory: the `./` entry first where asked for and
/// available, then every listed item in the order read.
pub fn scan_single_directory(
    items: &Vec<DirItem>,
    current_dir: &Option<FileMetadata>,
    config: &ScanConfig,
) -> (r: Vec<FileEntry>)
    requires
        items@.len() + 2 <= u64::MAX,
    ensures
        r@.len() == scan_len(items@, *current_dir, *config),
        forall|k: int|
            0 <= k < r@.len() ==> scanned_at(#[trigger] r@[k], items@, *current_dir, *config, k, Seq::empty()),
{
    let mut out: Vec<FileEntry> = Vec::new();
    proof {
        reveal_strlit("");
    }
    scan_into(&mut out, items, current_dir, config, "");
    assert forall|k: int| 0 <= k < out@.len() implies scanned_at(
        #[trigger] out@[k],
        items@,
        *current_dir,
        *config,
        k,
        Seq::empty(),
    ) by {
        assert(out@[0 + k] == out@[k]);
        assert(""@ =~= Seq::<char>::empty());
    }
    out
}

/// An upper bound on the entries a set of listings can give.
pub open spec fn listing_bound(ls: Seq<DirListing>) -> nat
    decreases ls.len(),
{
    if ls.len() == 0 {
        0
    } else {
        listing_bound(ls.drop_last()) + ls.last().items@.len() + 1
    }
}

/// How many entries the first `i` listings give.
pub open spec fn collected_len(
    ls: Seq<DirListing>,
    current_dir: Option<FileMetadata>,
    cfg: ScanConfig,
    i: int,
) -> nat
    decreases i,
{
    if i <= 0 {
        0
    } else {
        collected_len(ls, current_dir, cfg, i - 1) + scan_len(ls[i - 1].items@, current_dir, cfg)
    }
}

/// What the names of a directory's entries are prefixed with: nothing when
/// one directory is listed, else its path without trailing separators and a
/// `/`.
pub open spec fn dir_prefix(ls: Seq<DirListing>, i: int) -> Seq<char> {
    if ls.len() > 1 {
        trim_end_of(ls[i].path@, '/', '\\') + "/"@
    } else {
        Seq::empty()
    }
}

proof fn lemma_collected_bound(ls: Seq<DirListing>, current_dir: Option<FileMetadata>, cfg: ScanConfig, i: int)
    requires
        0 <= i <= ls.len(),
    ensures
        collected_len(ls, current_dir, cfg, i) <= listing_bound(ls.subrange(0, i)),
    decreases i,
{
    if i > 0 {
        lemma_collected_bound(ls, current_dir, cfg, i - 1);
        lemma_listed_len(ls[i - 1].items@, cfg);
        assert(ls.subrange(0, i).drop_last() =~= ls.subrange(0, i - 1));
    }
}

proof fn lemma_bound_prefix(ls: Seq<DirListing>, i: int)
    requires
        0 <= i <= ls.len(),
    ensures
        listing_bound(ls.subrange(0, i)) + (if i < ls.len() {
            ls[i].items@.len() + 1
        } else {
            0
        }) <= listing_bound(ls),
    decreases ls.len(),
{
    if i < ls.len() {
        if i == ls.len() - 1 {
            assert(ls.subrange(0, i) =~= ls.drop_last());
        } else {
            lemma_bound_prefix(ls.drop_last(), i);
            assert(ls.drop_last().subrange(0, i) =~= ls.subrange(0, i));
        }
    } else {
        assert(ls.subrange(0, i) =~= ls);
    }
}

/// The entries of every directory of the scan set, in the order given, each
/// directory's entries in scan order; when several directories are listed,
/// each name is prefixed with its directory's path.
pub fn get_file(
    listings: &Vec<DirListing>,
    current_dir: &Option<FileMetadata>,
    config: &ScanConfig,
) -> (r: Vec<FileEntry>)
    requires
        listing_bound(listings@) + 2 <= u64::MAX,
    ensures
        r@.len() == collected_len(listings@, *current_dir, *config, listings@.len() as int),
        forall|i: int, k: int|
            0 <= i < listings@.len() && 0 <= k < scan_len(listings@[i].items@, *current_dir, *config)
                ==> scanned_at(
                #[trigger] r@[collected_len(listings@, *current_dir, *config, i) + k],
                listings@[i].items@,
                *current_dir,
                *config,
                k,
                dir_prefix(listings@, i),
            ),
{
    let mut out: Vec<FileEntry> = Vec::new();
    let multiple = listings.len() > 1;
    let mut i: usize = 0;
    proof {
        reveal_strlit("");
        reveal_strlit("/");
    }
    while i < listings.len()
        invariant
            i <= listings@.len(),
            multiple == (listings@.len() > 1),
            listing_bound(listings@) + 2 <= u64::MAX,
            out@.len() == collected_len(listings@, *current_dir, *config, i as int),
            forall|j: int, k: int|
                0 <= j < i && 0 <= k < scan_len(listings@[j].items@, *current_dir, *config)
                    ==> scanned_at(
                    #[trigger] out@[collected_len(listings@, *current_dir, *config, j) + k],
                    listings@[j].items@,
                    *current_dir,
                    *config,
                    k,
                    dir_prefix(listings@, j),
                ),
        decreases listings@.len() - i,
    {
        let listing = &listings[i];
        let prefix = if multiple {
            let mut p = trimmed_end(listing.path.as_str(), '/', '\\');
            p.append("/");
            p
        } else {
            String::new()
        };
        assert(prefix@ == dir_prefix(listings@, i as int));
        proof {
            lemma_collected_bound(listings@, *current_dir, *config, i as int);
            lemma_bound_prefix(listings@, i as int);
        }
        let ghost before = out@;
        scan_into(&mut out, &listing.items, current_dir, config, prefix.as_str());
        proof {
            assert forall|j: int, k: int|
                0 <= j < i + 1 && 0 <= k < scan_len(listings@[j].items@, *current_dir, *config)
                    implies scanned_at(
                    #[trigger] out@[collected_len(listings@, *current_dir, *config, j) + k],
                    listings@[j].items@,
                    *current_dir,
                    *config,
                    k,
                    dir_prefix(listings@, j),
                ) by {
                if j < i {
                    lemma_collected_mono(listings@, *current_dir, *config, j + 1, i as int);
                    let idx = collected_len(listings@, *current_dir, *config, j) + k;
                    assert(out@.subrange(0, before.len() as int)[idx] == out@[idx]);
                    assert(before[idx] == out@[idx]);
                }
            }
        }
        i = i + 1;
    }
    out
}

proof fn lemma_collected_mono(
    ls: Seq<DirListing>,
    current_dir: Option<FileMetadata>,
    cfg: ScanConfig,
    a: int,
    b: int,
)
    requires
        0 <= a <= b,
    ensures
        collected_len(ls, current_dir, cfg, a) <= collected_len(ls, current_dir, cfg, b),
    decreases b - a,
{
    if a < b {
        lemma_collected_mono(ls, current_dir, cfg, a, b - 1);
    }
}

/// A directory path is caught by the exclude list: it contains one of its
/// terms.
pub open spec fn dir_excluded(path: Seq<char>, exclude: Option<Vec<String>>) -> bool {
    match exclude {
        None => false,
        Some(v) => exists|i: int| 0 <= i < v@.len() && is_substring((#[trigger] v@[i])@, path),
    }
}

/// The additional directories that are scanned: those that exist as
/// directories and are not excluded, in the order given.
pub open spec fn kept_dirs(dirs: Seq<String>, is_directory: Seq<bool>, exclude: Option<Vec<String>>) -> Seq<String>
    decreases dirs.len(),
{
    if dirs.len() == 0 {
        Seq::empty()
    } else {
        let n = (dirs.len() - 1) as int;
        let rest = kept_dirs(dirs.drop_last(), is_directory.subrange(0, n), exclude);
        if is_directory[n] && !dir_excluded(dirs[n]@, exclude) {
            rest.push(dirs[n])
        } else {
            rest
        }
    }
}

fn is_dir_excluded(path: &str, exclude: &Option<Vec<String>>) -> (r: bool)
    ensures
        r == dir_excluded(path@, *exclude),
{
    match exclude {
        None => false,
        Some(list) => {
            let mut i: usize = 0;
            while i < list.len()
                invariant
                    *exclude == Some(*list),
                    i <= list@.len(),
                    forall|k: int| 0 <= k < i ==> !is_substring((#[trigger] list@[k])@, path@),
                decreases list@.len() - i,
            {
                if contains_text(path, list[i].as_str()) {
                    let ghost v = exclude->0;
                    assert(v@[i as int] == list@[i as int]);
                    assert(0 <= i < v@.len() && is_substring(v@[i as int]@, path@));
                    return true;
                }
                i = i + 1;
            }
            false
        },
    }
}

/// The directories to scan: `path` first, then each additional directory that
/// exists as a directory (`is_directory`, by position) and is not excluded,
/// in the order given.
pub fn scan_set(
    path: &str,
    include_dirs: &Vec<String>,
    is_directory: &Vec<bool>,
    exclude: &Option<Vec<String>>,
) -> (r: Vec<String>)
    requires
        is_directory@.len() == include_dirs@.len(),
    ensures
        r@.len() >= 1,
        r@[0]@ == path@,
        r@.drop_first() == kept_dirs(include_dirs@, is_directory@, *exclude),
{
    let mut out: Vec<String> = Vec::new();
    out.push(String::from_str(path));
    let mut i: usize = 0;
    while i < include_dirs.len()
        invariant
            i <= include_dirs@.len(),
            is_directory@.len() == include_dirs@.len(),
            out@.len() >= 1,
            out@[0]@ == path@,
            out@.drop_first() == kept_dirs(
                include_dirs@.subrange(0, i as int),
                is_directory@.subrange(0, i as int),
                *exclude,
            ),
        decreases include_dirs@.len() - i,
    {
        let ghost before = out@;
        proof {
            assert(include_dirs@.subrange(0, i + 1).drop_last() =~= include_dirs@.subrange(0, i as int));
            assert(is_directory@.subrange(0, i + 1).subrange(0, i as int) =~= is_directory@.subrange(0, i as int));
        }
        if is_directory[i] && !is_dir_excluded(include_dirs[i].as_str(), exclude) {
            out.push(include_dirs[i].clone());
            assert(out@.drop_first() =~= before.drop_first().push(include_dirs@[i as int]));
        }
        i = i + 1;
    }
    assert(include_dirs@.subrange(0, include_dirs@.len() as int) =~= include_dirs@);
    assert(is_directory@.subrange(0, include_dirs@.len() as int) =~= is_directory@);
    out
}

/// Every field but the line number is the same.
pub open spec fn same_but_line(a: FileEntry, b: FileEntry) -> bool {
    &&& a.name == b.name
    &&& a.e_type == b.e_type
    &&& a.permissions == b.permissions
    &&& a.size == b.size
    &&& a.modified == b.modified
    &&& a.raw_size == b.raw_size
    &&& a.raw_modified == b.raw_modified
}

/// Numbers the entries 1, 2, ... in their current order.
pub fn add_line_numbers(files: &mut Vec<FileEntry>)
    ensures
        final(files)@.len() == old(files)@.len(),
        forall|i: int|
            0 <= i < final(files)@.len() ==> (#[trigger] final(files)@[i]).line_number@ == nat_text(
                (i + 1) as nat,
            ) && same_but_line(final(files)@[i], old(files)@[i]),
{
    let mut i: usize = 0;
    while i < files.len()
        invariant
            i <= files@.len(),
            files@.len() == old(files)@.len(),
            forall|k: int|
                0 <= k < i ==> (#[trigger] files@[k]).line_number@ == nat_text((k + 1) as nat)
                    && same_but_line(files@[k], old(files)@[k]),
            forall|k: int| i <= k < files@.len() ==> #[trigger] files@[k] == old(files)@[k],
        decreases files@.len() - i,
    {
        let number = decimal_text((i + 1) as u64);
        files[i].line_number = number;
        i = i + 1;
    }
}

/// The sum of a sequence of byte counts.
pub open spec fn byte_sum(s: Seq<u64>) -> int {
    s.fold_left(0int, |acc: int, x: u64| acc + x)
}

/// The sum of `sizes`, or `u64::MAX` where the sum does not fit.
pub fn total_size(sizes: &Vec<u64>) -> (r: u64)
    ensures
        r == (if byte_sum(sizes@) > u64::MAX {
            u64::MAX as int
        } else {
            byte_sum(sizes@)
        }),
{
    let mut total: u64 = 0;
    let mut exact: bool = true;
    let mut i: usize = 0;
    while i < sizes.len()
        invariant
            i <= sizes@.len(),
            exact ==> total == byte_sum(sizes@.subrange(0, i as int)),
            !exact ==> total == u64::MAX && byte_sum(sizes@.subrange(0, i as int)) > u64::MAX,
        decreases sizes@.len() - i,
    {
        proof {
            let s = sizes@.subrange(0, i + 1);
            assert(s.drop_last() =~= sizes@.subrange(0, i as int));
            lemma_fold_sizes_nonneg(sizes@.subrange(0, i as int));
        }
        if exact {
            if total <= u64::MAX - sizes[i] {
                total = total + sizes[i];
            } else {
                total = u64::MAX;
                exact = false;
            }
        }
        i = i + 1;
    }
    assert(sizes@.subrange(0, sizes@.len() as int) =~= sizes@);
    total
}

proof fn lemma_fold_sizes_nonneg(s: Seq<u64>)
    ensures
        byte_sum(s) >= 0,
    decreases s.len(),
{
    if s.len() > 0 {
        lemma_fold_sizes_nonneg(s.drop_last());
    }
}

} // verus!
