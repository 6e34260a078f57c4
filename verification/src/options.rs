//! The options of a run, kept once for the whole run.
use vstd::prelude::*;

verus! {

/// The options a run was started with: the workspace description to analyze,
/// whether to say more, whether to print JSON, and whether to scan source
/// folders recursively.
#[derive(Debug)]
pub struct Options {
    pub sws_file: String,
    pub verbose: bool,
    pub json: bool,
    pub recursive_scan: bool,
}

impl Options {
    /// A copy of these options.
    pub fn copy(&self) -> (r: Options)
        ensures
            r == *self,
    {
        Options {
            sws_file: self.sws_file.clone(),
            verbose: self.verbose,
            json: self.json,
            recursive_scan: self.recursive_scan,
        }
    }

    /// Keeps `current` as the options of the run, unless options were kept
    /// already, and returns the options kept: the first options kept stay.
    pub fn init_current(kept: &mut Option<Options>, current: Options) -> (r: Options)
        ensures
            *old(kept) is Some ==> *final(kept) == *old(kept),
            *old(kept) is None ==> *final(kept) == Some(current),
            *final(kept) == Some(r),
    {
        if kept.is_none() {
            *kept = Some(current);
        }
        Self::current(kept)
    }

    /// The options kept for the run.
    pub fn current(kept: &Option<Options>) -> (r: Options)
        requires
            kept is Some,
        ensures
            r == kept.unwrap(),
    {
        match kept {
            Some(o) => o.copy(),
            None => {
                proof {
                    assert(false);
                }
                Options { sws_file: String::new(), verbose: false, json: false, recursive_scan: false }
            },
        }
    }
}

} // verus!
