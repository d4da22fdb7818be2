//! Front-end configuration: the boolean flags and the precedence that picks
//! exactly one output mode.

use vstd::prelude::*;

verus! {

/// The three output modes, mutually exclusive.
#[derive(Clone, Copy, Debug, PartialEq, Eq, Structural)]
pub enum OutputMode {
    /// Tabular listing with one row per bundled license text.
    FullLicenses,
    /// One line per record, in input order.
    OnePerLine,
    /// Records gathered under their shared license string (the default).
    GroupedByLicense,
}

/// Everything the formatter needs to know for one invocation.
#[derive(Clone, Copy, Debug, PartialEq, Eq, Structural)]
pub struct ReportConfig {
    pub display_authors: bool,
    pub mode: OutputMode,
}

/// Mode precedence: the full listing wins over one-per-line, which wins
/// over the default grouped mode.
pub open spec fn mode_of_flags(display_full_licenses: bool, do_not_bundle: bool) -> OutputMode {
    if display_full_licenses {
        OutputMode::FullLicenses
    } else if do_not_bundle {
        OutputMode::OnePerLine
    } else {
        OutputMode::GroupedByLicense
    }
}

/// Picks the output mode from the two mode flags.
pub fn select_mode(display_full_licenses: bool, do_not_bundle: bool) -> (m: OutputMode)
    ensures
        m == mode_of_flags(display_full_licenses, do_not_bundle),
{
    if display_full_licenses {
        OutputMode::FullLicenses
    } else if do_not_bundle {
        OutputMode::OnePerLine
    } else {
        OutputMode::GroupedByLicense
    }
}

/// The diagnostic shown when the resolver finds no lockfile: the fixed
/// explanation, then the resolver's own error text on a line of its own.
pub fn lockfile_missing_message(err: &str) -> (r: String)
    ensures
        r@ == "Cargo.lock file not found. Try building the project first.\n"@ + err@,
{
    let mut r = String::from_str("Cargo.lock file not found. Try building the project first.\n");
    r.append(err);
    r
}

/// Builds the formatter configuration from the parsed boolean flags.
pub fn config_from_flags(
    display_authors: bool,
    do_not_bundle: bool,
    display_full_licenses: bool,
) -> (c: ReportConfig)
    ensures
        c.display_authors == display_authors,
        c.mode == mode_of_flags(display_full_licenses, do_not_bundle),
{
    ReportConfig { display_authors, mode: select_mode(display_full_licenses, do_not_bundle) }
}

} // verus!
