//! Choosing what to analyse: a git remote to clone, a local directory, or the current one.

use vstd::prelude::*;
use crate::text::{is_prefix, starts_with, trim, trim_str};

verus! {

broadcast use vstd::string::group_string_axioms;

/// Whether the trimmed text `s` starts like a git remote URL.
pub open spec fn is_remote_url(s: Seq<char>) -> bool {
    let t = trim(s);
    is_prefix("https://"@, t) || is_prefix("http://"@, t) || is_prefix("git@"@, t)
}

/// Whether `s`, trimmed, starts with `https://`, `http://` or `git@`.
pub fn looks_like_git_remote_url(s: &str) -> (r: bool)
    ensures
        r == is_remote_url(s@),
{
    let t = trim_str(s);
    starts_with(t, "https://") || starts_with(t, "http://") || starts_with(t, "git@")
}

/// Where the sources to analyse come from.
#[derive(Clone, Debug, PartialEq, Eq)]
pub enum SourcePlan {
    /// Clone this git remote into a temporary directory and analyse the clone.
    CloneRemote(String),
    /// Analyse this local directory.
    Local(String),
    /// Analyse the current directory.
    CurrentDir,
}

/// What to analyse for the optional source argument: a remote URL is cloned, another
/// non-empty argument is a local directory, and no or an empty argument means the current
/// directory.
pub fn plan_source(source: Option<&str>) -> (r: SourcePlan)
    ensures
        match source {
            Some(s) => if s@.len() > 0 {
                if is_remote_url(s@) {
                    r matches SourcePlan::CloneRemote(u) && u@ == s@
                } else {
                    r matches SourcePlan::Local(p) && p@ == s@
                }
            } else {
                r is CurrentDir
            },
            None => r is CurrentDir,
        },
{
    match source {
        Some(s) => {
            if s.is_empty() {
                SourcePlan::CurrentDir
            } else if looks_like_git_remote_url(s) {
                SourcePlan::CloneRemote(String::from_str(s))
            } else {
                SourcePlan::Local(String::from_str(s))
            }
        },
        None => SourcePlan::CurrentDir,
    }
}

/// The directory that the command line analyses: its first argument, or the current
/// directory `.` when the argument is missing or empty.
pub fn analysis_root(arg: Option<&str>) -> (r: String)
    ensures
        r@ == match arg {
            Some(a) => if a@.len() > 0 {
                a@
            } else {
                "."@
            },
            None => "."@,
        },
{
    match arg {
        Some(a) => if a.is_empty() {
            String::from_str(".")
        } else {
            String::from_str(a)
        },
        None => String::from_str("."),
    }
}

} // verus!
