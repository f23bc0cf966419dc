//! The judge's side of the exchange: what a reply to a measurement means.
use vstd::prelude::*;

verus! {

/// # Judge
/// The interactive judge; the exchange itself is carried out by the program
/// around this library.
#[derive(Debug)]
pub struct Judge;

impl Judge {
    /// The temperature that a reply to a measurement reports; a negative
    /// reply means that something went wrong.
    pub fn reading(reply: isize) -> (t: Option<usize>)
        ensures
            reply >= 0 ==> t == Some(reply as usize),
            reply < 0 ==> t is None,
    {
        if reply >= 0 {
            Some(reply as usize)
        } else {
            None
        }
    }
}

} // verus!
