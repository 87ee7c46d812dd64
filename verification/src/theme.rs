//! Normalization of the host operating system's light/dark appearance
//! preference. Each host family exposes the preference differently; the shell
//! runs the family's query and hands the textual outcome in, absent when the
//! query failed. Every undetermined outcome folds into Light.

use vstd::prelude::*;

use crate::text::{contains_lowercase, contains_seq, contains_str, lower_seq, str_eq, trim_ascii,
    trim_of};

verus! {

/// The operating-system category that decides which appearance query applies.
#[derive(Clone, Copy, PartialEq, Eq, Structural, Debug)]
pub enum HostFamily {
    /// Queries a configuration store's boolean light-theme flag.
    Windows,
    /// Queries the global interface-style preference.
    MacOs,
    /// Queries the desktop theme name.
    Linux,
    /// No query available; always Light.
    Other,
}

/// The two appearance values the shell understands.
#[derive(Clone, Copy, PartialEq, Eq, Structural, Debug)]
pub enum AppearanceMode {
    Light,
    Dark,
}

/// The view of a query outcome: the output text, or absence on failure.
pub open spec fn outcome_view(o: Option<String>) -> Option<Seq<char>> {
    match o {
        None => None,
        Some(s) => Some(s@),
    }
}

/// How one host family's query outcome reads as an appearance:
/// - the light-theme flag store reports Dark exactly when its output carries
///   the literal `0x0`;
/// - the interface-style preference reports Dark exactly when its output,
///   trimmed, is the word `Dark`;
/// - the theme name reports Dark exactly when it contains `dark` after case
///   folding;
/// - everything else, a failed query included, is Light.
pub open spec fn appearance_spec(family: HostFamily, output: Option<Seq<char>>) -> AppearanceMode {
    match family {
        HostFamily::Windows => match output {
            Some(o) => if contains_seq(o, "0x0"@) {
                AppearanceMode::Dark
            } else {
                AppearanceMode::Light
            },
            None => AppearanceMode::Light,
        },
        HostFamily::MacOs => match output {
            Some(o) => if trim_of(o) == "Dark"@ {
                AppearanceMode::Dark
            } else {
                AppearanceMode::Light
            },
            None => AppearanceMode::Light,
        },
        HostFamily::Linux => match output {
            Some(o) => if contains_seq(lower_seq(o), "dark"@) {
                AppearanceMode::Dark
            } else {
                AppearanceMode::Light
            },
            None => AppearanceMode::Light,
        },
        HostFamily::Other => AppearanceMode::Light,
    }
}

/// The textual form of an appearance value.
pub open spec fn appearance_text_spec(m: AppearanceMode) -> Seq<char> {
    match m {
        AppearanceMode::Light => "light"@,
        AppearanceMode::Dark => "dark"@,
    }
}

/// Reads one host family's query outcome as an appearance value.
pub fn detect_appearance(family: HostFamily, output: &Option<String>) -> (r: AppearanceMode)
    ensures
        r == appearance_spec(family, outcome_view(*output)),
        *output is None ==> r == AppearanceMode::Light,
{
    match family {
        HostFamily::Windows => match output {
            Some(o) => {
                if contains_str(o.as_str(), "0x0") {
                    AppearanceMode::Dark
                } else {
                    AppearanceMode::Light
                }
            },
            None => AppearanceMode::Light,
        },
        HostFamily::MacOs => match output {
            Some(o) => {
                let t = trim_ascii(o.as_str());
                if str_eq(t, "Dark") {
                    AppearanceMode::Dark
                } else {
                    AppearanceMode::Light
                }
            },
            None => AppearanceMode::Light,
        },
        HostFamily::Linux => match output {
            Some(o) => {
                if contains_lowercase(o.as_str(), "dark") {
                    AppearanceMode::Dark
                } else {
                    AppearanceMode::Light
                }
            },
            None => AppearanceMode::Light,
        },
        HostFamily::Other => AppearanceMode::Light,
    }
}

/// The textual form of an appearance value.
pub fn appearance_text(m: AppearanceMode) -> (r: String)
    ensures
        r@ == appearance_text_spec(m),
{
    match m {
        AppearanceMode::Light => String::from_str("light"),
        AppearanceMode::Dark => String::from_str("dark"),
    }
}

/// The appearance the shell reports for one query outcome, as text: `"dark"`
/// exactly when the family's signal says so, `"light"` in every other case,
/// a failed query included.
pub fn get_appearance(family: HostFamily, output: &Option<String>) -> (r: String)
    ensures
        r@ == appearance_text_spec(appearance_spec(family, outcome_view(*output))),
        *output is None ==> r@ == "light"@,
{
    appearance_text(detect_appearance(family, output))
}

} // verus!
