//! What names a problem of a benchmark service.

use vstd::prelude::*;

verus! {

/// The number of a benchmark problem, where to ask for it and with which
/// token, and whether the attempt is only a trial.
pub struct ProblemIdentifier {
    pub id: usize,
    pub debug: bool,
    pub url: String,
    pub token: String,
}

impl ProblemIdentifier {
    /// Names problem `id` of the service at `url`.
    pub fn new(id: usize, debug: bool, url: String, token: String) -> (p: ProblemIdentifier)
        ensures
            p.id == id,
            p.debug == debug,
            p.url == url,
            p.token == token,
    {
        ProblemIdentifier { id, debug, url, token }
    }
}

} // verus!
