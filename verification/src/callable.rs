//! Functions that a program declares, as values it can call.
use vstd::prelude::*;

use crate::ast::{fn_view, FnDefn, SpecFnDefn};
use crate::text::{decimal, decimal_string};

verus! {

/// A declared function and the number of arguments it takes.
#[derive(Debug, PartialEq)]
pub struct InnerCallable {
    declaration: FnDefn,
    arity: usize,
}

/// What a call with the wrong number of arguments is told.
pub open spec fn arity_error(arity: nat, got: nat) -> Seq<char> {
    "Expected "@ + decimal(arity) + " arg(s) but got "@ + decimal(got)
}

impl InnerCallable {
    /// A function takes one argument per parameter.
    #[verifier::type_invariant]
    spec fn takes_its_parameters(self) -> bool {
        self.arity == self.declaration.parameters@.len()
    }

    /// The declaration of the function.
    pub closed spec fn spec_declaration(self) -> SpecFnDefn {
        fn_view(self.declaration)
    }

    /// The function that `declaration` declares.
    pub fn new(declaration: FnDefn) -> (c: InnerCallable)
        ensures
            c.spec_declaration() == fn_view(declaration),
    {
        let arity = declaration.parameters.len();
        InnerCallable { declaration, arity }
    }

    /// The declaration of the function.
    pub fn declaration(&self) -> (d: &FnDefn)
        ensures
            fn_view(*d) == self.spec_declaration(),
    {
        &self.declaration
    }

    /// How many arguments the function takes: one per parameter.
    pub fn arity(&self) -> (n: usize)
        ensures
            n == self.spec_declaration().parameters.len(),
    {
        proof {
            use_type_invariant(self);
        }
        self.arity
    }

    /// Whether a call with `got` arguments fits the function; the error to
    /// report when it does not.
    pub fn check_arity(&self, got: usize) -> (r: Result<(), String>)
        ensures
            match r {
                Ok(()) => got == self.spec_declaration().parameters.len(),
                Err(m) => got != self.spec_declaration().parameters.len() && m@ == arity_error(
                    self.spec_declaration().parameters.len(),
                    got as nat,
                ),
            },
    {
        let arity = self.arity();
        if got == arity {
            Ok(())
        } else {
            let mut m = String::from_str("Expected ");
            m.append(decimal_string(arity).as_str());
            m.append(" arg(s) but got ");
            m.append(decimal_string(got).as_str());
            Err(m)
        }
    }
}

} // verus!
