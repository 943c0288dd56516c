use vstd::prelude::*;

verus! {

/// A program to run: its name and its arguments.
#[derive(Debug, Clone)]
pub struct Process {
    pub cmd: String,
    pub args: Vec<String>,
}

/// The mathematical value of a [`Process`].
pub struct SpecProcess {
    pub cmd: Seq<char>,
    pub args: Seq<Seq<char>>,
}

impl View for Process {
    type V = SpecProcess;

    open spec fn view(&self) -> SpecProcess {
        SpecProcess { cmd: self.cmd@, args: self.args@.map_values(|a: String| a@) }
    }
}

} // verus!
