//! Fonts whose files are kept in memory.

use crate::ordered_map::OrderedMap;
use crate::path::{parse_path, PathView, VirtualPath};
use crate::sink::{all_taken, FontSink, History, SinkCall};
use crate::source::{Answer, FontSource, Reader};
use vstd::prelude::*;

verus! {

broadcast use vstd::seq::group_seq_axioms;

/// What the given files answer.
pub open spec fn answer_from(files: Map<PathView, Vec<u8>>, path: PathView) -> Answer {
    if files.contains_key(path) {
        Answer::Data(files[path]@)
    } else {
        Answer::Absent
    }
}

/// The file that was written last under the given path.
pub open spec fn written(calls: History, path: PathView) -> Answer
    decreases calls.len(),
{
    if calls.len() == 0 {
        Answer::Absent
    } else if parse_path(calls.last().path) == path && calls.last().outcome is Ok {
        Answer::Data(calls.last().data)
    } else {
        written(calls.drop_last(), path)
    }
}

/// What is read back of the files that were written, whatever the spelling.
pub open spec fn written_files(calls: History) -> Reader {
    |spelling: Seq<u8>| written(calls, parse_path(spelling))
}

/// A file stays written until another is written under the same path.
pub proof fn lemma_written(calls: History, at: int)
    requires
        0 <= at < calls.len(),
        calls[at].outcome is Ok,
        forall|i: int|
            at < i < calls.len() ==> parse_path((#[trigger] calls[i]).path) != parse_path(
                calls[at].path,
            ),
    ensures
        written(calls, parse_path(calls[at].path)) == Answer::Data(calls[at].data),
    decreases calls.len(),
{
    if at < calls.len() - 1 {
        let head = calls.drop_last();
        assert(parse_path(calls[calls.len() - 1].path) != parse_path(calls[at].path));
        assert forall|i: int| at < i < head.len() implies parse_path((#[trigger] head[i]).path)
            != parse_path(head[at].path) by {
            assert(head[i] == calls[i]);
        }
        lemma_written(head, at);
    }
}

/// A source whose files are kept in memory.
#[derive(Debug)]
pub struct MemorySource {
    pub files: OrderedMap<VirtualPath, Vec<u8>>,
}

impl FontSource for MemorySource {
    open spec fn may_answer(&self, spelling: Seq<u8>, answer: Answer) -> bool {
        answer == answer_from(self.files@, parse_path(spelling))
    }

    fn try_read(&self, path: &VirtualPath) -> (res: Option<Result<Vec<u8>, std::io::Error>>) {
        match self.files.get(path) {
            Some(data) => {
                let copy = data.clone();
                assert(copy@ == data@);
                Some(Ok(copy))
            },
            None => None,
        }
    }
}

/// A sink that keeps the files in memory. It takes every file.
pub struct MemorySink {
    files: OrderedMap<VirtualPath, Vec<u8>>,
    calls: Ghost<History>,
}

impl MemorySink {
    #[verifier::type_invariant]
    spec fn well_formed(self) -> bool {
        &&& all_taken(self.calls@)
        &&& forall|path: PathView| #[trigger]
            answer_from(self.files@, path) == written(self.calls@, path)
    }

    /// A sink without files.
    pub fn new() -> (res: MemorySink)
        ensures
            res.history() == Seq::<SinkCall>::empty(),
    {
        MemorySink { files: OrderedMap::new(), calls: Ghost(Seq::empty()) }
    }

    /// A source with the files that were written.
    pub fn into_source(self) -> (res: MemorySource)
        ensures
            all_taken(self.history()),
            forall|path: PathView| #[trigger]
                answer_from(res.files@, path) == written(self.history(), path),
    {
        proof {
            use_type_invariant(&self);
        }
        MemorySource { files: self.files }
    }
}

impl FontSink for MemorySink {
    closed spec fn history(&self) -> History {
        self.calls@
    }

    fn write(&mut self, path: &VirtualPath, data: &[u8]) -> (res: Result<(), std::io::Error>)
        ensures
            res is Ok,
    {
        proof {
            use_type_invariant(&*self);
        }
        let ghost before = self.files@;
        let ghost calls = self.calls@;
        let ghost call = SinkCall { path: path.spelling(), data: data@, outcome: Ok(()) };
        let mut taken = MemorySink::new();
        std::mem::swap(&mut taken, self);
        let mut files = taken.files;
        files.insert(path.clone(), vstd::slice::slice_to_vec(data));
        assert forall|p: PathView| #[trigger] answer_from(files@, p) == written(
            calls.push(call),
            p,
        ) by {
            assert(calls.push(call).drop_last() == calls);
            assert(answer_from(before, p) == written(calls, p));
        }
        *self = MemorySink { files, calls: Ghost(calls.push(call)) };
        Ok(())
    }
}

} // verus!
