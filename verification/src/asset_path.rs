//! The texts that are paths of assets.

use bevy_asset::AssetPath;

use vstd::prelude::*;

verus! {

/// Whether `://` stands at `i`.
pub open spec fn is_source_mark(text: Seq<char>, i: int) -> bool {
    0 <= i < text.len() - 2 && text[i] == ':' && text[i + 1] == '/' && text[i + 2] == '/'
}

/// Whether `#` stands at `i`.
pub open spec fn is_label_mark(text: Seq<char>, i: int) -> bool {
    0 <= i < text.len() && text[i] == '#'
}

/// Whether `text` is the path of an asset, `source://path#label`: where there is a `://`, the
/// source before the first one is not empty and has no `#`; where there is a `#`, the label
/// after the last one is not empty and has no `://`.
pub open spec fn is_asset_path(text: Seq<char>) -> bool {
    &&& !is_source_mark(text, 0)
    &&& !is_label_mark(text, text.len() - 1)
    &&& forall|h: int, i: int| #[trigger]
        is_label_mark(text, h) && #[trigger] is_source_mark(text, i) && h < i ==> {
            &&& exists|j: int| j < h && #[trigger] is_source_mark(text, j)
            &&& exists|k: int| i < k && #[trigger] is_label_mark(text, k)
        }
}

/// `AssetPath::try_parse`, of `bevy_asset`: whether it takes the text.
///
/// It looks for the first `://` and for the last `#`, and refuses an empty source, an empty
/// label, a `#` in the source and a `://` in the label.
#[verifier::external_body]
pub(crate) fn parses_as_asset_path(text: &str) -> (r: bool)
    ensures
        r == is_asset_path(text@),
{
    AssetPath::try_parse(text).is_ok()
}

} // verus!
