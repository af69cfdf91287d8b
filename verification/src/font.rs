//! What a font consists of, as far as writing it depends on that.

use crate::names::DEFAULT_METAINFO_CREATOR;
use crate::ordered_map::OrderedMap;
use crate::path::VirtualPath;
use vstd::prelude::*;

verus! {

/// The version of the format that a font was read from.
#[derive(Clone, Copy, Debug, PartialEq, Eq, Structural)]
pub enum FormatVersion {
    V1,
    V2,
    V3,
}

/// The format version and the creator of a font.
#[derive(Debug)]
pub struct MetaInfo {
    pub creator: Option<String>,
    pub format_version: FormatVersion,
    pub format_version_minor: u32,
}

/// What a [`MetaInfo`] stands for.
pub struct MetaInfoView {
    pub creator: Option<Seq<char>>,
    pub format_version: FormatVersion,
    pub format_version_minor: u32,
}

/// The text of a creator.
pub open spec fn creator_text(creator: Option<String>) -> Option<Seq<char>> {
    match creator {
        Some(name) => Some(name@),
        None => None,
    }
}

impl View for MetaInfo {
    type V = MetaInfoView;

    open spec fn view(&self) -> MetaInfoView {
        MetaInfoView {
            creator: creator_text(self.creator),
            format_version: self.format_version,
            format_version_minor: self.format_version_minor,
        }
    }
}

/// The meta information of a font that this library has made.
pub open spec fn default_metainfo() -> MetaInfoView {
    MetaInfoView {
        creator: Some(DEFAULT_METAINFO_CREATOR@),
        format_version: FormatVersion::V3,
        format_version_minor: 0,
    }
}

impl Default for MetaInfo {
    fn default() -> (res: MetaInfo)
        ensures
            res@ == default_metainfo(),
    {
        MetaInfo {
            creator: Some(DEFAULT_METAINFO_CREATOR.to_owned()),
            format_version: FormatVersion::V3,
            format_version_minor: 0,
        }
    }
}

impl Clone for MetaInfo {
    fn clone(&self) -> (res: MetaInfo)
        ensures
            res@ == self@,
    {
        let creator = match &self.creator {
            Some(name) => Some(name.clone()),
            None => None,
        };
        MetaInfo {
            creator,
            format_version: self.format_version,
            format_version_minor: self.format_version_minor,
        }
    }
}

/// The meta information with which a font is written: its own where this
/// library is its creator, and that of a new font otherwise.
pub open spec fn written_metainfo(meta: MetaInfoView) -> MetaInfoView {
    if meta.creator == Some(DEFAULT_METAINFO_CREATOR@) {
        meta
    } else {
        default_metainfo()
    }
}

impl MetaInfo {
    /// The meta information with which the font is written.
    pub fn to_write(&self) -> (res: MetaInfo)
        ensures
            res@ == written_metainfo(self@),
    {
        let own = match &self.creator {
            Some(name) => *name == DEFAULT_METAINFO_CREATOR.to_owned(),
            None => false,
        };
        if own {
            self.clone()
        } else {
            MetaInfo::default()
        }
    }
}

/// A value of the custom data. The entries of a dictionary are kept in the
/// order of their keys, at every depth.
#[derive(Debug)]
pub enum Value<L> {
    /// A dictionary.
    Dictionary(OrderedMap<String, Value<L>>),
    /// Any other value.
    Leaf(L),
}

/// The font information, and what writing depends on in it. `L` is a value of
/// the custom data that is no dictionary, `E` is what is reported of a part that
/// cannot be written.
#[derive(Debug)]
pub struct FontInfo<I, L, E> {
    /// The font information itself.
    pub contents: I,
    /// Whether the font information is valid.
    pub validity: Result<(), E>,
    /// Whether it holds nothing.
    pub is_empty: bool,
    /// The custom data of the guidelines.
    pub object_libs: OrderedMap<String, Value<L>>,
}

/// The groups, and what writing depends on in them.
#[derive(Debug)]
pub struct Groups<G, E> {
    /// The groups themselves.
    pub contents: G,
    /// Whether the groups are valid.
    pub validity: Result<(), E>,
    /// Whether there is no group.
    pub is_empty: bool,
}

/// The kerning, and what writing depends on in it.
#[derive(Debug)]
pub struct Kerning<K> {
    /// The kerning itself.
    pub contents: K,
    /// Whether there is no kerning.
    pub is_empty: bool,
}

/// A file of a layer.
#[derive(Debug)]
pub struct LayerFile<E> {
    /// The path of the file in the directory of the layer.
    pub path: VirtualPath,
    /// The bytes of the file.
    pub contents: Result<Vec<u8>, E>,
}

/// A layer.
#[derive(Debug)]
pub struct Layer<E> {
    pub name: String,
    /// The directory of the layer.
    pub path: VirtualPath,
    /// The files of the layer in the order in which they are written.
    pub files: Vec<LayerFile<E>>,
}

/// A file that is kept beside the font.
#[derive(Debug)]
pub struct StoreEntry<E> {
    pub path: VirtualPath,
    /// The bytes of the file.
    pub contents: Result<Vec<u8>, E>,
}

/// A font. `I`, `G` and `K` are its font information, its groups and its
/// kerning, `L` is a value of the custom data that is no dictionary, and `E` is
/// what is reported of a part that cannot be written.
#[derive(Debug)]
pub struct Font<I, G, K, L, E> {
    pub meta: MetaInfo,
    pub font_info: FontInfo<I, L, E>,
    /// The custom data.
    pub lib: OrderedMap<String, Value<L>>,
    pub groups: Groups<G, E>,
    pub kerning: Kerning<K>,
    /// The text of the features.
    pub features: String,
    /// The files that the features take in.
    pub feature_files: OrderedMap<VirtualPath, String>,
    pub layers: Vec<Layer<E>>,
    /// The data files.
    pub data: Vec<StoreEntry<E>>,
    /// The images.
    pub images: Vec<StoreEntry<E>>,
}

/// A value of the custom data as it is handed on to be written.
#[derive(Debug)]
pub enum LibValue<'a, L> {
    /// A value.
    Value(&'a Value<L>),
    /// A dictionary.
    Dictionary(&'a OrderedMap<String, Value<L>>),
}

impl<'a, L> View for LibValue<'a, L> {
    type V = Value<L>;

    open spec fn view(&self) -> Value<L> {
        match self {
            LibValue::Value(value) => **value,
            LibValue::Dictionary(entries) => Value::Dictionary(**entries),
        }
    }
}

/// A part of a font that is written as a property list.
#[derive(Debug)]
pub enum Part<'a, I, G, K, L> {
    MetaInfo(MetaInfo),
    /// The font information of the font.
    FontInfo(&'a I),
    /// The entries of the custom data in the order of their keys.
    Lib(Vec<(&'a str, LibValue<'a, L>)>),
    /// The groups of the font.
    Groups(&'a G),
    /// The kerning of the font.
    Kerning(&'a K),
    /// The names and the directories of the layers.
    LayerContents(Vec<(&'a str, &'a VirtualPath)>),
}

/// What a [`Part`] stands for.
#[verifier::ext_equal]
pub enum PartView<I, G, K, L> {
    MetaInfo(MetaInfoView),
    FontInfo(I),
    Lib(Seq<(Seq<char>, Value<L>)>),
    Groups(G),
    Kerning(K),
    LayerContents(Seq<(Seq<char>, Seq<u8>)>),
}

impl<'a, I, G, K, L> View for Part<'a, I, G, K, L> {
    type V = PartView<I, G, K, L>;

    open spec fn view(&self) -> PartView<I, G, K, L> {
        match self {
            Part::MetaInfo(meta) => PartView::MetaInfo(meta@),
            Part::FontInfo(info) => PartView::FontInfo(**info),
            Part::Lib(entries) => PartView::Lib(
                entries@.map_values(|e: (&'a str, LibValue<'a, L>)| (e.0@, e.1@)),
            ),
            Part::Groups(groups) => PartView::Groups(**groups),
            Part::Kerning(kerning) => PartView::Kerning(**kerning),
            Part::LayerContents(layers) => PartView::LayerContents(
                layers@.map_values(|l: (&'a str, &'a VirtualPath)| (l.0@, l.1.spelling())),
            ),
        }
    }
}

} // verus!
