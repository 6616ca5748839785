//! Descriptions of installable content, as extensions hand them to the
//! frontend.
use vstd::prelude::*;

verus! {

/// A file that belongs to an instance's content.
#[derive(Clone, Debug)]
pub struct ContentFile {
    pub name: String,
    pub icon: Option<Vec<u8>>,
    pub version: Option<String>,
}

/// An item a content provider offers for installation.
#[derive(Clone, Debug)]
pub struct ContentProviderItem {
    /// Unique identifier.
    pub id: String,
    /// Name to display on the frontend.
    pub name: String,
    /// Icon to display on the frontend, must be a URL.
    pub icon: Option<String>,
    /// Author of the published item.
    pub authors: Option<Vec<ContentProviderItemAuthor>>,
    /// Short summary to display on the frontend.
    pub summary: Option<String>,
    /// Whether or not this item can be installed.
    pub can_be_installed: bool,
}

/// Who published an item.
#[derive(Clone, Debug)]
pub struct ContentProviderItemAuthor {
    pub id: String,
    pub name: String,
    pub website_url: Option<String>,
}

/// How a content search orders its results.
#[derive(Debug)]
pub enum ContentProviderSearchSortType {
    Relevance,
    DownloadCount,
    Rating,
    RecentlyPublished,
    RecentlyUpdated,
}

} // verus!
