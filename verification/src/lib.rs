//! Search results of the Nyaa.si torrent index, read out of its HTML pages.
//!
//! The site offers no API, so everything here comes from the markup of its
//! result pages. A page's bytes are parsed into a [`Document`]; the table of
//! results is located in it and each of its rows is read into a [`Torrent`].
//! A [`Crawler`] says which page a search needs next and when it is over;
//! fetching the pages is left to the caller, who asks for each with the
//! parameters of [`page_query`]. If the site changes its markup a search
//! ends with [`Error::Scraping`].

pub mod category;
pub mod crawl;
pub mod dom;
pub mod html;
pub mod query;
pub mod scraping;
pub mod size;
pub mod text;
pub mod types;

pub use crate::category::map_category;
pub use crate::crawl::{Crawler, Fetched, Step};
pub use crate::dom::{Attribute, Document, NodeData};
pub use crate::html::parse_document;
pub use crate::query::page_query;
pub use crate::scraping::{
    get_category, get_completed_downloads, get_date, get_leechers, get_links, get_name,
    get_seeders, get_size, get_table_body, get_table_div, get_text, identify_page, is_class,
    is_element, is_title, parse_page, parse_row, torrent_search_page, Page,
};
pub use crate::size::parse_size;
pub use crate::types::{
    Anime, Audio, Category, Error, Literature, LiveAction, Pictures, Software, Torrent,
};
