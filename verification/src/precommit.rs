//! Which checks the pre-commit hook enables. Rendering the hook from
//! its template and installing it are the caller's steps.

use vstd::prelude::*;

verus! {

/// The checks a generated pre-commit hook runs.
#[derive(Copy, Clone, Debug)]
pub struct Features {
    pub cargo: bool,
    pub taplo: bool,
    pub gitleaks: bool,
}

impl Default for Features {
    /// Every check enabled.
    fn default() -> (r: Self)
        ensures
            r.cargo && r.taplo && r.gitleaks,
    {
        Features { cargo: true, taplo: true, gitleaks: true }
    }
}

} // verus!
