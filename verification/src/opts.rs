//! The command-line option surface of the tool.

use vstd::prelude::*;

verus! {

/// Options of one invocation.
pub struct Opt {
    /// Crates to plot.
    pub crates: Vec<String>,
    /// X size of the output image.
    pub x_size: u32,
    /// Y size of the output image.
    pub y_size: u32,
    /// File path of the output image.
    pub output: String,
    /// File path of Cargo.toml.
    pub manifest_path: Option<String>,
    /// Directory of the store to update, when updating.
    pub update: Option<String>,
    /// Branch of the index repository.
    pub branch: Option<String>,
    /// Plot the fraction of the index instead of absolute counts.
    pub relative: bool,
    /// Plot transitive dependents.
    pub transitive: bool,
    /// Plot the most trending crates.
    pub top_trend: Option<usize>,
    /// Plot the most depended-on crates.
    pub top_dependent: Option<usize>,
    /// Plot the most transitively depended-on crates.
    pub top_transitive: Option<usize>,
    /// Window length in weeks.
    pub duration: Option<i64>,
}

impl Opt {
    /// The defaults of the option surface: a 1200 by 800 image written to
    /// `trend.svg`, absolute direct-dependent counts, no update.
    pub fn new() -> (o: Opt)
        ensures
            o.crates@.len() == 0,
            o.x_size == 1200,
            o.y_size == 800,
            o.output@ == "trend.svg"@,
            o.manifest_path is None,
            o.update is None,
            o.branch is None,
            !o.relative,
            !o.transitive,
            o.top_trend is None,
            o.top_dependent is None,
            o.top_transitive is None,
            o.duration is None,
    {
        Opt {
            crates: Vec::new(),
            x_size: 1200,
            y_size: 800,
            output: "trend.svg".to_owned(),
            manifest_path: None,
            update: None,
            branch: None,
            relative: false,
            transitive: false,
            top_trend: None,
            top_dependent: None,
            top_transitive: None,
            duration: None,
        }
    }
}

/// The cargo subcommand wrapper.
pub enum CargoOpt {
    /// The trend subcommand.
    Trend(Opt),
}

} // verus!
