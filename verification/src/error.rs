//! What can go wrong when the files of a font are read or written.

use crate::decode::decoded;
use crate::path::{PathView, VirtualPath};
use vstd::prelude::*;

verus! {

/// Why the feature files of a font could not be loaded or expanded.
#[derive(Debug)]
pub enum FontLoadError {
    /// A feature file could not be read, or is not UTF-8.
    FeatureFile(std::io::Error),
    /// A feature file takes itself in, directly or through others.
    FeatureIncludeCycle {
        path: VirtualPath,
    },
    /// A feature file takes in a file that does not exist.
    MissingIncludedFeatureFile {
        path: VirtualPath,
    },
}

/// What a [`FontLoadError`] stands for.
pub enum LoadFailure {
    /// A file could not be read, or is not UTF-8.
    FeatureFile(std::io::Error),
    /// A file takes itself in.
    Cycle(PathView),
    /// A file does not exist.
    Missing(PathView),
    /// More files are open within each other than a vector can hold. No error
    /// stands for this: memory ends before.
    TooDeep,
}

impl View for FontLoadError {
    type V = LoadFailure;

    open spec fn view(&self) -> LoadFailure {
        match self {
            FontLoadError::FeatureFile(error) => LoadFailure::FeatureFile(*error),
            FontLoadError::FeatureIncludeCycle { path } => LoadFailure::Cycle(path@),
            FontLoadError::MissingIncludedFeatureFile { path } => LoadFailure::Missing(path@),
        }
    }
}

impl FontLoadError {
    /// Whether the path of the error is spelled in the shortest way.
    pub open spec fn is_short(self) -> bool {
        match self {
            FontLoadError::FeatureFile(_) => true,
            FontLoadError::FeatureIncludeCycle { path } => path.is_short(),
            FontLoadError::MissingIncludedFeatureFile { path } => path.is_short(),
        }
    }

    /// The kind of the error of a feature file that could not be read or is not
    /// UTF-8. In the second case, that is invalid data.
    pub fn kind(&self) -> (res: Option<std::io::ErrorKind>)
        ensures
            match self {
                FontLoadError::FeatureFile(error) => {
                    &&& res is Some
                    &&& forall|bytes: Seq<u8>|
                        #![trigger decoded(bytes)]
                        decoded(bytes) == Err::<Seq<char>, std::io::Error>(*error) ==> res == Some(
                            std::io::ErrorKind::InvalidData,
                        )
                    &&& call_ensures(std::io::Error::kind, (error,), res->Some_0)
                },
                _ => res is None,
            },
    {
        match self {
            FontLoadError::FeatureFile(error) => Some(error.kind()),
            _ => None,
        }
    }
}

/// Why a layer could not be written. `E` is what is reported of a part that
/// cannot be written.
#[allow(inconsistent_fields)]
#[derive(Debug)]
pub enum LayerWriteError<E> {
    /// The contents of a file could not be made.
    File {
        path: VirtualPath,
        source: E,
    },
    /// The sink did not take a file.
    Sink {
        path: VirtualPath,
        source: std::io::Error,
    },
}

/// Why a font could not be written. `E` is what is reported of a part that
/// cannot be written.
#[allow(inconsistent_fields)]
#[derive(Debug)]
pub enum FontWriteError<E> {
    /// The font was read from an earlier version of the format.
    Downgrade,
    /// The custom data has an entry under the key for the data of guidelines.
    PreexistingPublicObjectLibsKey,
    /// The groups are not valid.
    InvalidGroups(E),
    /// The font information is not valid.
    InvalidFontInfo(E),
    /// A data file or an image is not valid.
    InvalidStoreEntry {
        path: VirtualPath,
        source: E,
    },
    /// The contents of a file could not be made.
    CustomFile {
        name: &'static str,
        source: E,
    },
    /// The sink did not take a file.
    Sink {
        path: VirtualPath,
        source: Box<std::io::Error>,
    },
    /// A layer could not be written.
    Layer {
        name: String,
        path: VirtualPath,
        source: Box<LayerWriteError<E>>,
    },
}

/// What a [`LayerWriteError`] stands for. A path stands for its spelling.
#[allow(inconsistent_fields)]
pub enum LayerFailure<E> {
    File {
        path: Seq<u8>,
        source: E,
    },
    Sink {
        path: Seq<u8>,
        source: std::io::Error,
    },
}

/// What a [`FontWriteError`] stands for. A path stands for its spelling.
#[allow(inconsistent_fields)]
pub enum WriteFailure<E> {
    Downgrade,
    PreexistingPublicObjectLibsKey,
    InvalidGroups(E),
    InvalidFontInfo(E),
    InvalidStoreEntry {
        path: Seq<u8>,
        source: E,
    },
    CustomFile {
        name: Seq<char>,
        source: E,
    },
    Sink {
        path: Seq<u8>,
        source: std::io::Error,
    },
    Layer {
        name: Seq<char>,
        path: Seq<u8>,
        source: LayerFailure<E>,
    },
}

impl<E> View for LayerWriteError<E> {
    type V = LayerFailure<E>;

    open spec fn view(&self) -> LayerFailure<E> {
        match self {
            LayerWriteError::File { path, source } => LayerFailure::File {
                path: path.spelling(),
                source: *source,
            },
            LayerWriteError::Sink { path, source } => LayerFailure::Sink {
                path: path.spelling(),
                source: *source,
            },
        }
    }
}

impl<E> View for FontWriteError<E> {
    type V = WriteFailure<E>;

    open spec fn view(&self) -> WriteFailure<E> {
        match self {
            FontWriteError::Downgrade => WriteFailure::Downgrade,
            FontWriteError::PreexistingPublicObjectLibsKey => {
                WriteFailure::PreexistingPublicObjectLibsKey
            },
            FontWriteError::InvalidGroups(source) => WriteFailure::InvalidGroups(*source),
            FontWriteError::InvalidFontInfo(source) => WriteFailure::InvalidFontInfo(*source),
            FontWriteError::InvalidStoreEntry { path, source } => WriteFailure::InvalidStoreEntry {
                path: path.spelling(),
                source: *source,
            },
            FontWriteError::CustomFile { name, source } => WriteFailure::CustomFile {
                name: name@,
                source: *source,
            },
            FontWriteError::Sink { path, source } => WriteFailure::Sink {
                path: path.spelling(),
                source: **source,
            },
            FontWriteError::Layer { name, path, source } => WriteFailure::Layer {
                name: name@,
                path: path.spelling(),
                source: (**source)@,
            },
        }
    }
}

} // verus!
