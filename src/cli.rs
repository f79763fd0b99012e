//! The command-line options, as plain values.

use vstd::prelude::*;

use crate::types::{PermissionStyle, ScanConfig, TimeFormat, TimeSettings};

verus! {

/// The options of one run.
#[derive(Clone, Debug)]
pub struct Args {
    pub path: Option<String>,
    /// Report directories by the summed size of their contents.
    pub deep: bool,
    /// Keep only names containing this.
    pub grab: Option<String>,
    pub json: bool,
    pub json_export: Option<String>,
    pub no_line_numbers: bool,
    pub octal_perms: bool,
    pub owner_perms: bool,
    pub show_cwd: bool,
    /// More directories to list.
    pub include_dirs: Option<Vec<String>>,
    /// Names, or directory paths, to leave out.
    pub exclude: Option<Vec<String>>,
    pub time_format: TimeFormat,
    pub custom_time_format: String,
    pub timezone: String,
    pub toggle_clock: bool,
    pub up_to_date: bool,
    pub down_to_date: bool,
    pub largest_size: bool,
    pub smallest_size: bool,
    pub alphabetical_order: bool,
    pub alphabetical_reverse: bool,
    pub dir_first: bool,
    pub dir_last: bool,
}

/// The permission style the options select; octal wins over owner.
pub open spec fn style_of(octal_perms: bool, owner_perms: bool) -> PermissionStyle {
    if octal_perms {
        PermissionStyle::Octal
    } else if owner_perms {
        PermissionStyle::Owner
    } else {
        PermissionStyle::Rwx
    }
}

/// The scan settings the options ask for, rendering dates in `timezone`.
pub fn scan_config(args: Args, timezone: String) -> (r: ScanConfig)
    ensures
        r.pattern == args.grab,
        r.exclude == args.exclude,
        r.show_line_numbers == !args.no_line_numbers,
        r.permission_style == style_of(args.octal_perms, args.owner_perms),
        r.time.format == args.time_format,
        r.time.timezone == timezone,
        r.time.custom_format == args.custom_time_format,
        r.time.toggle_clock == args.toggle_clock,
        r.deep == args.deep,
        r.show_current_dir == args.show_cwd,
{
    let style = if args.octal_perms {
        PermissionStyle::Octal
    } else if args.owner_perms {
        PermissionStyle::Owner
    } else {
        PermissionStyle::Rwx
    };
    ScanConfig {
        pattern: args.grab,
        exclude: args.exclude,
        show_line_numbers: !args.no_line_numbers,
        permission_style: style,
        time: TimeSettings {
            format: args.time_format,
            timezone,
            custom_format: args.custom_time_format,
            toggle_clock: args.toggle_clock,
        },
        deep: args.deep,
        show_current_dir: args.show_cwd,
    }
}

} // verus!
