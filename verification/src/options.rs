//! Runtime options for a search session.

use vstd::prelude::*;

verus! {

/// Settings a caller can pick for an interactive or one-shot search.
#[derive(Debug)]
pub struct Options {
    pub query: String,
    pub lines: usize,
    pub show_scores: bool,
    pub parallelism: usize,
    pub prompt: String,
    pub benchmark: usize,
}

impl Default for Options {
    fn default() -> (r: Self)
        ensures
            r.query@ == Seq::<char>::empty(),
            r.lines == 10,
            !r.show_scores,
            r.parallelism == 4,
            r.prompt@ == "> "@,
            r.benchmark == 0,
    {
        Self {
            query: String::new(),
            lines: 10,
            show_scores: false,
            parallelism: 4,
            prompt: "> ".to_owned(),
            benchmark: 0,
        }
    }
}

} // verus!
