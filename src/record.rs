use vstd::prelude::*;

verus! {

/// The abstract value of a parsed record: its identifier as text and its
/// residue bytes.
pub struct RecordView {
    pub id: Seq<char>,
    pub seq: Seq<u8>,
}

/// One FASTA entry: the identifier from its header line and the residues of
/// the lines that follow it, with line terminators removed.
#[derive(Debug, PartialEq, Eq)]
pub struct Sequence {
    pub seq: Vec<u8>,
    pub id: String,
}

impl View for Sequence {
    type V = RecordView;

    open spec fn view(&self) -> RecordView {
        RecordView { id: self.id@, seq: self.seq@ }
    }
}

/// A message on the handoff queue: a unit of work, or the signal that no
/// more work follows.
#[derive(Debug, PartialEq, Eq)]
pub enum ThreadCommand<T> {
    Work(T),
    Terminate,
}

impl ThreadCommand<Sequence> {
    /// Takes the record out of a work message. Calling it on `Terminate` is
    /// a programming error, excluded by the precondition.
    pub fn unwrap(self) -> (r: Sequence)
        requires
            self is Work,
        ensures
            self == ThreadCommand::Work(r),
    {
        match self {
            ThreadCommand::Work(x) => x,
            ThreadCommand::Terminate => {
                proof {
                    assert(false);
                }
                unreached()
            },
        }
    }
}

} // verus!
