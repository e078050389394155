//! The read-eval-print steps of the interactive front end. Evaluation and
//! printing pass their input through unchanged.
use vstd::prelude::*;

verus! {

pub fn read(input: &str) -> (r: &str)
    ensures
        r@ == input@,
{
    input
}

pub fn eval(input: &str) -> (r: &str)
    ensures
        r@ == input@,
{
    input
}

pub fn print(input: &str) -> (r: &str)
    ensures
        r@ == input@,
{
    input
}

#[derive(Clone, Copy, Debug, PartialEq, Eq, Default)]
pub struct Repl;

impl Repl {
    pub fn new() -> (r: Repl) {
        Repl
    }

    pub fn read<'a>(&self, input: &'a str) -> (r: &'a str)
        ensures
            r@ == input@,
    {
        input
    }

    pub fn eval<'a>(&self, input: &'a str) -> (r: &'a str)
        ensures
            r@ == input@,
    {
        input
    }

    pub fn print<'a>(&self, input: &'a str) -> (r: &'a str)
        ensures
            r@ == input@,
    {
        input
    }

    /// One round: read, evaluate, print.
    pub fn rep<'a>(&self, input: &'a str) -> (r: &'a str)
        ensures
            r@ == input@,
    {
        self.print(self.eval(self.read(input)))
    }
}

} // verus!
