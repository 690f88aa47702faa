use vstd::prelude::*;

verus! {

/// Severity of a log entry.
#[derive(Clone, Copy, Debug, PartialEq, Eq, Structural)]
pub enum Kind {
    Information,
    Warning,
    Error,
}

/// Which producer a record came from.
#[derive(Clone, Copy, Debug, PartialEq, Eq, Structural)]
pub enum Source {
    Engine,
    Game,
}

/// One log entry.
#[derive(Clone, Debug)]
pub struct Record {
    pub kind: Kind,
    pub content: String,
}

/// The fold key of a record: its kind and the characters of its content.
pub type Key = (Kind, Seq<char>);

impl Record {
    pub open spec fn key(&self) -> Key {
        (self.kind, self.content@)
    }

    pub fn new(kind: Kind, content: String) -> (r: Record)
        ensures
            r.kind == kind,
            r.content@ == content@,
    {
        Record { kind, content }
    }

    /// A copy of this record with the same kind and content.
    pub fn duplicate(&self) -> (r: Record)
        ensures
            r.kind == self.kind,
            r.content@ == self.content@,
    {
        Record { kind: self.kind, content: self.content.clone() }
    }
}

} // verus!
