//! Where the files of a font are read from.

use crate::path::{path_text, PathView, VirtualPath};
use vstd::prelude::*;

verus! {

/// What a source answers when it is asked for a file.
pub enum Answer {
    /// There is no such file.
    Absent,
    /// The file could not be read.
    Failed(std::io::Error),
    /// The bytes of the file.
    Data(Seq<u8>),
}

/// The answer that the result of a read gives.
pub open spec fn answer_of(read: Option<Result<Vec<u8>, std::io::Error>>) -> Answer {
    match read {
        None => Answer::Absent,
        Some(Err(error)) => Answer::Failed(error),
        Some(Ok(data)) => Answer::Data(data@),
    }
}

/// A place from which the files of a font can be read.
///
/// A source need not answer alike when it is asked twice: which answers are
/// possible is for each source to say.
pub trait FontSource {
    /// Whether the source can give `answer` when it is asked for the path with
    /// the given spelling: any answer, where the source says no more.
    open spec fn may_answer(&self, spelling: Seq<u8>, answer: Answer) -> bool {
        true
    }

    /// The contents of the file at `path`, or `None` where there is no such
    /// file.
    fn try_read(&self, path: &VirtualPath) -> (res: Option<Result<Vec<u8>, std::io::Error>>)
        ensures
            self.may_answer(path.spelling(), answer_of(res)),
    ;
}

/// What a source would answer for each spelling of a path.
pub type Reader = spec_fn(Seq<u8>) -> Answer;

/// What a source would answer for the shortest spelling of `path`.
pub open spec fn read_at(reader: Reader, path: PathView) -> Answer {
    reader(path_text(path))
}

/// The answers that a source gave, each to a different path in its shortest
/// spelling.
pub type ReadLog = Map<PathView, Answer>;

/// Whether `source` can have given all the answers of `log`.
pub open spec fn gave<S: FontSource>(source: &S, log: ReadLog) -> bool {
    forall|path: PathView| #[trigger]
        log.contains_key(path) ==> source.may_answer(path_text(path), log[path])
}

/// Whether `reader` answers as `log` says.
pub open spec fn agrees(reader: Reader, log: ReadLog) -> bool {
    forall|path: PathView| #[trigger]
        log.contains_key(path) ==> read_at(reader, path) == log[path]
}

/// Whether `source` can give no other answers than those of `reader`.
pub open spec fn answers_as<S: FontSource>(source: &S, reader: Reader) -> bool {
    forall|spelling: Seq<u8>, answer: Answer| #[trigger]
        source.may_answer(spelling, answer) ==> answer == reader(spelling)
}

} // verus!
