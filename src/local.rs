//! A collection source kept in a local directory.
use vstd::prelude::*;
use vstd::string::*;

verus! {

/// Reads a collection and its history from files under one directory.
pub struct CubeCobraLocalClient {
    cache_path: String,
}

impl View for CubeCobraLocalClient {
    type V = Seq<char>;

    closed spec fn view(&self) -> Seq<char> {
        self.cache_path@
    }
}

impl CubeCobraLocalClient {
    pub fn new(cache_path: String) -> (r: CubeCobraLocalClient)
        ensures
            r@ == cache_path@,
    {
        CubeCobraLocalClient { cache_path }
    }

    /// The file that holds the collection's current state.
    pub fn cube_path(&self) -> (r: String)
        ensures
            r@ == self@ + "/cube.json"@,
    {
        let mut r = self.cache_path.clone();
        r.append("/cube.json");
        r
    }

    /// The file that holds the collection's change history.
    pub fn history_path(&self) -> (r: String)
        ensures
            r@ == self@ + "/history.json"@,
    {
        let mut r = self.cache_path.clone();
        r.append("/history.json");
        r
    }
}

} // verus!
