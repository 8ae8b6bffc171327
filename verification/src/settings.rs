//! Settings defaults and the stored form of the category map.

use vstd::prelude::*;
use crate::category::{CategoryMap, CategoryMapView};
use crate::paths::{join, joined_path};

verus! {

/// The category map as stored in the settings file.
#[derive(Debug)]
pub struct SerCategoryMap {
    pub video: Vec<String>,
    pub audio: Vec<String>,
    pub documents: Vec<String>,
    pub compressed: Vec<String>,
    pub programs: Vec<String>,
    pub images: Vec<String>,
}

impl View for SerCategoryMap {
    type V = CategoryMapView;

    open spec fn view(&self) -> CategoryMapView {
        CategoryMapView {
            video: self.video.deep_view(),
            audio: self.audio.deep_view(),
            documents: self.documents.deep_view(),
            compressed: self.compressed.deep_view(),
            programs: self.programs.deep_view(),
            images: self.images.deep_view(),
        }
    }
}

impl From<CategoryMap> for SerCategoryMap {
    fn from(c: CategoryMap) -> (s: Self) {
        SerCategoryMap {
            video: c.video,
            audio: c.audio,
            documents: c.documents,
            compressed: c.compressed,
            programs: c.programs,
            images: c.images,
        }
    }
}

impl vstd::std_specs::convert::FromSpecImpl<CategoryMap> for SerCategoryMap {
    open spec fn obeys_from_spec() -> bool {
        true
    }

    open spec fn from_spec(c: CategoryMap) -> Self {
        SerCategoryMap {
            video: c.video,
            audio: c.audio,
            documents: c.documents,
            compressed: c.compressed,
            programs: c.programs,
            images: c.images,
        }
    }
}

impl From<SerCategoryMap> for CategoryMap {
    fn from(c: SerCategoryMap) -> (m: Self) {
        CategoryMap {
            video: c.video,
            audio: c.audio,
            documents: c.documents,
            compressed: c.compressed,
            programs: c.programs,
            images: c.images,
        }
    }
}

impl vstd::std_specs::convert::FromSpecImpl<SerCategoryMap> for CategoryMap {
    open spec fn obeys_from_spec() -> bool {
        true
    }

    open spec fn from_spec(c: SerCategoryMap) -> Self {
        CategoryMap {
            video: c.video,
            audio: c.audio,
            documents: c.documents,
            compressed: c.compressed,
            programs: c.programs,
            images: c.images,
        }
    }
}

/// The theme of a settings file written before themes existed.
pub fn default_theme() -> (t: String)
    ensures
        t@ == "system"@,
{
    "system".to_owned()
}

/// The download cap of a settings file written before the queue existed.
pub fn default_max_active() -> (n: u32)
    ensures
        n == 3,
{
    3
}

/// The value of on-by-default switches missing from an older settings file.
pub fn default_true() -> (b: bool)
    ensures
        b,
{
    true
}

/// The default download folder: `Downloads/Drift` under the user's home
/// folder, or under `C:/` when there is none.
pub fn default_download_root(home: Option<String>) -> (p: String)
    ensures
        p@ == joined_path(
            joined_path(
                match home {
                    Some(h) => h@,
                    None => "C:/"@,
                },
                "Downloads"@,
            ),
            "Drift"@,
        ),
{
    let base = match home {
        Some(h) => h,
        None => "C:/".to_owned(),
    };
    let downloads = join(base.as_str(), "Downloads");
    join(downloads.as_str(), "Drift")
}

/// Converting a category map to its stored form and back keeps its lists.
pub proof fn lemma_category_map_round_trip(c: CategoryMap)
    ensures
        <CategoryMap as vstd::std_specs::convert::FromSpec<SerCategoryMap>>::from_spec(
            <SerCategoryMap as vstd::std_specs::convert::FromSpec<CategoryMap>>::from_spec(c),
        )@ == c@,
{
}

} // verus!
