//! Addresses of the scheduler daemon's API.

use crate::text;
use vstd::prelude::*;

verus! {

/// Base URL of the local scheduler daemon.
pub const DEFAULT_BASE_URL: &'static str = "http://127.0.0.1:8856";

/// A daemon to talk to.
#[derive(Debug, Clone)]
pub struct SchedClient {
    base: String,
}

impl View for SchedClient {
    type V = Seq<char>;

    /// The base URL.
    closed spec fn view(&self) -> Seq<char> {
        self.base@
    }
}

impl SchedClient {
    /// A daemon at a base URL; trailing slashes are dropped.
    pub fn new(base_url: &str) -> (r: SchedClient)
        ensures
            r@ == text::unslashed(base_url@),
    {
        SchedClient { base: text::trim_slashes(base_url) }
    }

    /// The local daemon on the default port.
    pub fn local() -> (r: SchedClient)
        ensures
            r@ == DEFAULT_BASE_URL@,
    {
        proof {
            reveal_strlit("http://127.0.0.1:8856");
            let s = DEFAULT_BASE_URL@;
            assert(s.last() == '6');
            assert(text::unslashed(s) == s);
        }
        Self::new(DEFAULT_BASE_URL)
    }

    /// The base URL, without a trailing slash.
    pub fn base_url(&self) -> (r: &str)
        ensures
            r@ == self@,
    {
        self.base.as_str()
    }

    /// The URL of a path.
    pub fn url(&self, path: &str) -> (r: String)
        ensures
            r@ == self@ + path@,
    {
        let mut r = self.base.clone();
        r.append(path);
        r
    }
}

/// A base URL never ends in a slash.
pub proof fn lemma_unslashed(s: Seq<char>)
    ensures
        text::unslashed(s).len() == 0 || text::unslashed(s).last() != '/',
    decreases s.len(),
{
    if s.len() > 0 && s.last() == '/' {
        lemma_unslashed(s.drop_last());
    }
}

} // verus!
