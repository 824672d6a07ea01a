//! What every error of the front end offers: a message for its reader.
use vstd::prelude::*;

verus! {

/// A value that can describe itself in a message.
pub trait MessageFactory {
    fn get_message(&self) -> String;
}

} // verus!
