//! Health of a loaded catalog entry.

use vstd::prelude::*;

verus! {

/// Whether a catalog entry still has the fragment files its record counts.
///
/// An entry read back from a catalog is `Good` when its fragments were all
/// found, and `Bad` with a short message when none or the wrong number
/// turned up.
#[derive(Debug)]
pub enum GameStatus {
    Good,
    Bad(String),
}

impl GameStatus {
    /// The display text: `OK` for a sound entry, the message otherwise.
    pub open spec fn spec_text(&self) -> Seq<char> {
        match self {
            GameStatus::Good => "OK"@,
            GameStatus::Bad(message) => message@,
        }
    }

    /// Wraps a degradation message.
    pub fn from(message: &str) -> (r: GameStatus)
        ensures
            r matches GameStatus::Bad(m) && m@ == message@,
    {
        GameStatus::Bad(message.to_owned())
    }

    /// Renders the status for the listing table.
    pub fn text(&self) -> (r: String)
        ensures
            r@ == self.spec_text(),
    {
        match self {
            GameStatus::Good => "OK".to_owned(),
            GameStatus::Bad(message) => message.clone(),
        }
    }
}

} // verus!
