//! The candidate type and the outcome of one comparison.

use vstd::prelude::*;

verus! {

/// Which side of the current pair won a comparison; `Other` records a tie or
/// a skip and changes no score.
pub enum Side {
    Lhs,
    Rhs,
    Other,
}

/// A named candidate together with the score it has accumulated so far.
#[derive(Debug, PartialEq)]
pub struct Parameters {
    pub name: String,
    pub score: u32,
}

impl Default for Parameters {
    fn default() -> (r: Self)
        ensures
            r.name@ == Seq::<char>::empty(),
            r.score == 0,
    {
        Parameters { name: String::new(), score: 0 }
    }
}

impl Clone for Parameters {
    fn clone(&self) -> (res: Self)
        ensures
            res == *self,
    {
        Parameters { name: self.name.clone(), score: self.score }
    }
}

impl Parameters {
    /// The candidate's name and score, as a pair.
    pub fn get_name_and_score(&self) -> (res: (&str, u32))
        ensures
            res.0@ == self.name@,
            res.1 == self.score,
    {
        (self.name.as_str(), self.score)
    }
}

} // verus!
