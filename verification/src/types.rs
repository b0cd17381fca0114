//! The records that a search returns, and the errors that end one.

use vstd::prelude::*;
use crate::text::{starts_with, string_view};

verus! {

/// A torrent's category: its kind, and the variant within that kind.
#[derive(Debug, Clone, Copy, PartialEq, Eq, PartialOrd, Ord, Hash)]
pub enum Category {
    Anime(Anime),
    Audio(Audio),
    Literature(Literature),
    LiveAction(LiveAction),
    Pictures(Pictures),
    Software(Software),
}

/// Variants of anime torrents.
#[derive(Debug, Clone, Copy, PartialEq, Eq, PartialOrd, Ord, Hash)]
pub enum Anime {
    AnimeMusicVideo,
    EnglishTranslated,
    NonEnglishTranslated,
    Raw,
}

/// Variants of audio torrents.
#[derive(Debug, Clone, Copy, PartialEq, Eq, PartialOrd, Ord, Hash)]
pub enum Audio {
    Lossless,
    Lossy,
}

/// Variants of literature torrents.
#[derive(Debug, Clone, Copy, PartialEq, Eq, PartialOrd, Ord, Hash)]
pub enum Literature {
    EnglishTranslated,
    NonEnglishTranslated,
    Raw,
}

/// Variants of live action torrents.
#[derive(Debug, Clone, Copy, PartialEq, Eq, PartialOrd, Ord, Hash)]
pub enum LiveAction {
    EnglishTranslated,
    IdolPromotionalVideo,
    NonEnglishTranslated,
    Raw,
}

/// Variants of pictures torrents.
#[derive(Debug, Clone, Copy, PartialEq, Eq, PartialOrd, Ord, Hash)]
pub enum Pictures {
    Graphics,
    Photos,
}

/// Variants of software torrents.
#[derive(Debug, Clone, Copy, PartialEq, Eq, PartialOrd, Ord, Hash)]
pub enum Software {
    Applications,
    Games,
}

/// Why a search ended without a result.
#[derive(Debug, Clone, PartialEq, Eq)]
pub enum Error {
    /// A page could not be fetched: the server did not answer, or refused.
    Request,
    /// A page that holds results did not have the shape that the extraction
    /// expects. The site's markup has changed and this library is stale.
    Scraping,
    /// The last page that the search was allowed to fetch still held results.
    Exhausted,
}

/// A torrent and its basic information.
#[derive(Debug, PartialEq, Eq, PartialOrd, Ord)]
pub struct Torrent {
    /// The category of the torrent.
    pub category: Category,
    /// The name of the torrent.
    pub name: String,
    /// The two links of the torrent's row, in the order of the row. Which one
    /// is the `.torrent` file and which the magnet is told by
    /// [`Torrent::torrent_file`] and [`Torrent::magnet_link`].
    pub links: (Option<String>, Option<String>),
    /// Total size of the torrent's files in bytes.
    pub size: u64,
    /// Date of publication of the torrent as a UNIX timestamp.
    pub date: u64,
    /// Number of seeders.
    pub seeders: u32,
    /// Number of leechers.
    pub leechers: u32,
    /// Number of completed downloads.
    pub completed_downloads: u32,
}

/// What a [`Torrent`] holds, with its strings as sequences of characters.
pub struct TorrentView {
    pub category: Category,
    pub name: Seq<char>,
    pub links: (Option<Seq<char>>, Option<Seq<char>>),
    pub size: u64,
    pub date: u64,
    pub seeders: u32,
    pub leechers: u32,
    pub completed_downloads: u32,
}

impl View for Torrent {
    type V = TorrentView;

    open spec fn view(&self) -> TorrentView {
        TorrentView {
            category: self.category,
            name: self.name@,
            links: (string_view(self.links.0), string_view(self.links.1)),
            size: self.size,
            date: self.date,
            seeders: self.seeders,
            leechers: self.leechers,
            completed_downloads: self.completed_downloads,
        }
    }
}

/// The views of a sequence of torrents, in order.
pub open spec fn torrent_views(torrents: Seq<Torrent>) -> Seq<TorrentView> {
    torrents.map_values(|t: Torrent| t@)
}

/// The path prefix of a link to a `.torrent` file.
pub open spec fn download_prefix() -> Seq<char> {
    "/download"@
}

/// The scheme prefix of a magnet link.
pub open spec fn magnet_prefix() -> Seq<char> {
    "magnet"@
}

/// The first of the two links, in their order, that begins with `prefix`.
pub open spec fn first_with_prefix(
    links: (Option<Seq<char>>, Option<Seq<char>>),
    prefix: Seq<char>,
) -> Option<Seq<char>> {
    if links.0 is Some && prefix.is_prefix_of(links.0->0) {
        links.0
    } else if links.1 is Some && prefix.is_prefix_of(links.1->0) {
        links.1
    } else {
        None
    }
}

impl Clone for Torrent {
    fn clone(&self) -> (r: Torrent)
        ensures
            r@ == self@,
    {
        Torrent {
            category: self.category,
            name: self.name.clone(),
            links: (self.links.0.clone(), self.links.1.clone()),
            size: self.size,
            date: self.date,
            seeders: self.seeders,
            leechers: self.leechers,
            completed_downloads: self.completed_downloads,
        }
    }
}

impl Torrent {
    /// The link to the `.torrent` file: the first of the two links that begins
    /// with `/download`, if there is one.
    pub fn torrent_file(&self) -> (r: Option<String>)
        ensures
            string_view(r) == first_with_prefix(self@.links, download_prefix()),
    {
        match &self.links.0 {
            Some(link) => {
                if starts_with(link.as_str(), "/download") {
                    return Some(link.clone());
                }
            },
            None => {},
        }
        match &self.links.1 {
            Some(link) => {
                if starts_with(link.as_str(), "/download") {
                    return Some(link.clone());
                }
            },
            None => {},
        }
        None
    }

    /// The magnet link: the first of the two links that begins with `magnet`,
    /// if there is one.
    pub fn magnet_link(&self) -> (r: Option<String>)
        ensures
            string_view(r) == first_with_prefix(self@.links, magnet_prefix()),
    {
        match &self.links.0 {
            Some(link) => {
                if starts_with(link.as_str(), "magnet") {
                    return Some(link.clone());
                }
            },
            None => {},
        }
        match &self.links.1 {
            Some(link) => {
                if starts_with(link.as_str(), "magnet") {
                    return Some(link.clone());
                }
            },
            None => {},
        }
        None
    }
}

} // verus!
