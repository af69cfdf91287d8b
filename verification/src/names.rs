//! The names of the files of a UFO.

use vstd::prelude::*;

verus! {

/// The file with the format version and the creator.
pub const METAINFO_FILE: &'static str = "metainfo.plist";

/// The file with the font information.
pub const FONTINFO_FILE: &'static str = "fontinfo.plist";

/// The file with custom data.
pub const LIB_FILE: &'static str = "lib.plist";

/// The file with the groups.
pub const GROUPS_FILE: &'static str = "groups.plist";

/// The file with the kerning.
pub const KERNING_FILE: &'static str = "kerning.plist";

/// The file with the features.
pub const FEATURES_FILE: &'static str = "features.fea";

/// The file with the names and the directories of the layers.
pub const LAYER_CONTENTS_FILE: &'static str = "layercontents.plist";

/// The directory of the data files.
pub const DATA_DIR: &'static str = "data";

/// The directory of the images.
pub const IMAGES_DIR: &'static str = "images";

/// The key of the custom data under which the data of guidelines is written.
pub const PUBLIC_OBJECT_LIBS_KEY: &'static str = "public.objectLibs";

/// The creator of a font that this library has made.
pub const DEFAULT_METAINFO_CREATOR: &'static str = "org.linebender.norad";

} // verus!
