//! The error that the patch tooling reports: a message for the operator and what led to it.
use vstd::prelude::*;
use crate::parse::string_views;

verus! {

/// The model of an error: a message and, from the nearest to the farthest, the messages of
/// the errors that led to it.
#[verifier::ext_equal]
pub struct Fault {
    /// What the operator reads first.
    pub message: Seq<char>,
    /// What led to it.
    pub causes: Seq<Seq<char>>,
}

/// An error that nothing else led to.
pub open spec fn plain(message: Seq<char>) -> Fault {
    Fault { message, causes: Seq::empty() }
}

impl Fault {
    /// An error that this one led to.
    pub open spec fn under(self, message: Seq<char>) -> Fault {
        Fault { message, causes: seq![self.message] + self.causes }
    }
}

/// A failure: a line of text, and those of the failures that led to it.
#[derive(Debug)]
pub struct PatchError {
    /// What the operator reads first.
    pub message: String,
    /// What led to it, from the nearest to the farthest.
    pub causes: Vec<String>,
}

impl View for PatchError {
    type V = Fault;

    open spec fn view(&self) -> Fault {
        Fault { message: self.message@, causes: string_views(self.causes@) }
    }
}

impl PatchError {
    /// Wraps a message.
    pub fn new(message: String) -> (error: PatchError)
        ensures
            error@ == plain(message@),
    {
        let causes: Vec<String> = Vec::new();
        proof {
            assert(string_views(causes@) =~= Seq::empty());
        }
        PatchError { message, causes }
    }

    /// An error that this one led to.
    pub fn under(self, message: String) -> (error: PatchError)
        ensures
            error@ == self@.under(message@),
    {
        let ghost was = self@;
        let mut causes: Vec<String> = self.causes;
        let first = self.message;
        causes.insert(0, first);
        proof {
            assert(string_views(causes@) =~= seq![was.message] + was.causes);
        }
        PatchError { message, causes }
    }

    /// The message.
    pub fn to_string(&self) -> (message: String)
        ensures
            message@ == self@.message,
    {
        self.message.clone()
    }

    /// The messages of what led to it, from the nearest to the farthest.
    pub fn causes(&self) -> (list: &[String])
        ensures
            string_views(list@) == self@.causes,
    {
        self.causes.as_slice()
    }
}

/// A result with both sides replaced by their models.
pub open spec fn outcome<T: View>(result: Result<T, PatchError>) -> Result<T::V, Fault> {
    match result {
        Ok(value) => Ok(value@),
        Err(error) => Err(error@),
    }
}

/// A result that holds a number, in terms of models.
pub open spec fn usize_outcome(result: Result<usize, PatchError>) -> Result<int, Fault> {
    match result {
        Ok(value) => Ok(value as int),
        Err(error) => Err(error@),
    }
}

/// A result that holds a 16-bit number, in terms of models.
pub open spec fn u16_outcome(result: Result<u16, PatchError>) -> Result<int, Fault> {
    match result {
        Ok(value) => Ok(value as int),
        Err(error) => Err(error@),
    }
}

/// A result that holds a 32-bit number, in terms of models.
pub open spec fn u32_outcome(result: Result<u32, PatchError>) -> Result<int, Fault> {
    match result {
        Ok(value) => Ok(value as int),
        Err(error) => Err(error@),
    }
}

/// The first of two faults.
pub open spec fn first_fault(a: Option<Fault>, b: Option<Fault>) -> Option<Fault> {
    match a {
        Some(fault) => Some(fault),
        None => b,
    }
}

/// The newest message is read first, and what led to it follows from the nearest to the
/// farthest.
pub proof fn law_causes_in_order(f: Fault, nearer: Seq<char>, newest: Seq<char>)
    ensures
        f.under(nearer).under(newest).message == newest,
        f.under(nearer).under(newest).causes.len() == f.causes.len() + 2,
        f.under(nearer).under(newest).causes[0] == nearer,
        f.under(nearer).under(newest).causes[1] == f.message,
        forall|i: int|
            0 <= i < f.causes.len() ==> f.under(nearer).under(newest).causes[i + 2]
                == #[trigger] f.causes[i],
        plain(newest).message == newest,
        plain(newest).causes.len() == 0,
        first_fault(Some(f), Some(plain(newest))) == Some(f),
        first_fault(None, Some(f)) == Some(f),
        first_fault(None, None) is None,
{
}

} // verus!
