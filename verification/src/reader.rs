use vstd::prelude::*;

verus! {

/// The text of a Lox program, as read from a file or typed at the prompt.
pub struct Source {
    pub text: String,
}

} // verus!
