//! Where the files of a font are written to.

use crate::path::VirtualPath;
use vstd::prelude::*;

verus! {

/// One file that a sink was handed, and what it answered.
pub struct SinkCall {
    /// How the path of the file is spelled.
    pub path: Seq<u8>,
    pub data: Seq<u8>,
    pub outcome: Result<(), std::io::Error>,
}

/// The files that a sink was handed, in order.
pub type History = Seq<SinkCall>;

/// Whether the sink took all files that it was handed.
pub open spec fn all_taken(calls: History) -> bool {
    forall|i: int| 0 <= i < calls.len() ==> (#[trigger] calls[i]).outcome is Ok
}

/// A place to which the files of a font can be written.
pub trait FontSink {
    /// The files that the sink has been handed so far.
    spec fn history(&self) -> History;

    /// Writes `data` to the file at `path`.
    fn write(&mut self, path: &VirtualPath, data: &[u8]) -> (res: Result<(), std::io::Error>)
        ensures
            final(self).history() == old(self).history().push(
                SinkCall { path: path.spelling(), data: data@, outcome: res },
            ),
    ;
}

} // verus!
