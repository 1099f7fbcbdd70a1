//! The search of one run.

use vstd::prelude::*;
use crate::config::Config;
use crate::lines::texts;
use crate::search::{matching_lines, search};

verus! {

/// The lines that a run with `config` puts out for a file that holds
/// `contents`, in the order in which it puts them out, each as it stands in
/// the file.
pub fn run<'a>(config: &Config, contents: &'a str) -> (out: Vec<&'a str>)
    ensures
        texts(out@) == matching_lines(config@.query, contents@, config@.is_case_sensitive),
{
    search(config.query(), contents, config.is_case_sensitive())
}

} // verus!
