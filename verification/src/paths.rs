//! Filesystem paths as the library builds them: a first component (a base
//! directory as given) followed by the components joined onto it. The program
//! turns one into a platform path by joining the same components in order.
use vstd::prelude::*;

verus! {

pub struct PathText {
    pub parts: Vec<String>,
}

impl View for PathText {
    type V = Seq<Seq<char>>;

    open spec fn view(&self) -> Seq<Seq<char>> {
        self.parts@.map_values(|p: String| p@)
    }
}

impl PathText {
    /// A path made of the given text alone.
    pub fn new(base: &str) -> (r: PathText)
        ensures
            r@ == seq![base@],
    {
        let mut parts: Vec<String> = Vec::new();
        parts.push(base.to_string());
        let r = PathText { parts };
        assert(r@ =~= seq![base@]);
        r
    }

    /// This path with one more component joined on.
    pub fn join(&self, part: &str) -> (r: PathText)
        ensures
            r@ == self@.push(part@),
    {
        let mut parts = self.parts.clone();
        parts.push(part.to_string());
        let r = PathText { parts };
        assert(r@ =~= self@.push(part@));
        r
    }

    /// This path with a component of owned text joined on.
    pub fn join_string(&self, part: String) -> (r: PathText)
        ensures
            r@ == self@.push(part@),
    {
        let mut parts = self.parts.clone();
        let ghost pv = part@;
        parts.push(part);
        let r = PathText { parts };
        assert(r@ =~= self@.push(pv));
        r
    }
}

} // verus!
