use nyaadesu::{Anime, Category, Torrent};

fn with_links(first: Option<&str>, second: Option<&str>) -> Torrent {
    Torrent {
        category: Category::Anime(Anime::Raw),
        name: "name".to_string(),
        links: (first.map(|s| s.to_string()), second.map(|s| s.to_string())),
        size: 1,
        date: 2,
        seeders: 3,
        leechers: 4,
        completed_downloads: 5,
    }
}

#[test]
fn tells_the_links_apart_in_the_order_of_the_row() {
    let t = with_links(Some("/download/123.torrent"), Some("magnet:?xt=urn:btih:abc"));
    assert_eq!(t.torrent_file(), Some("/download/123.torrent".to_string()));
    assert_eq!(t.magnet_link(), Some("magnet:?xt=urn:btih:abc".to_string()));
}

#[test]
fn tells_the_links_apart_when_they_are_swapped() {
    let t = with_links(Some("magnet:?xt=..."), Some("/download/123.torrent"));
    assert_eq!(t.magnet_link(), Some("magnet:?xt=...".to_string()));
    assert_eq!(t.torrent_file(), Some("/download/123.torrent".to_string()));
}

#[test]
fn takes_the_first_of_two_links_of_one_kind() {
    let t = with_links(Some("/download/1.torrent"), Some("/download/2.torrent"));
    assert_eq!(t.torrent_file(), Some("/download/1.torrent".to_string()));
    assert_eq!(t.magnet_link(), None);
    let m = with_links(Some("magnet:a"), Some("magnet:b"));
    assert_eq!(m.magnet_link(), Some("magnet:a".to_string()));
    assert_eq!(m.torrent_file(), None);
}

#[test]
fn finds_a_link_in_the_second_slot_alone() {
    let t = with_links(None, Some("/download/9.torrent"));
    assert_eq!(t.torrent_file(), Some("/download/9.torrent".to_string()));
    assert_eq!(t.magnet_link(), None);
    let m = with_links(None, Some("magnet:?xt=1"));
    assert_eq!(m.magnet_link(), Some("magnet:?xt=1".to_string()));
    assert_eq!(m.torrent_file(), None);
}

#[test]
fn finds_nothing_without_a_matching_link() {
    let none = with_links(None, None);
    assert_eq!(none.torrent_file(), None);
    assert_eq!(none.magnet_link(), None);
    let other = with_links(Some("https://example.org/download"), Some("Magnet:?xt=1"));
    assert_eq!(other.torrent_file(), None);
    assert_eq!(other.magnet_link(), None);
    let short = with_links(Some("/downloa"), Some("magne"));
    assert_eq!(short.torrent_file(), None);
    assert_eq!(short.magnet_link(), None);
}

#[test]
fn a_clone_equals_what_it_was_made_from() {
    let t = with_links(Some("/download/1.torrent"), None);
    let c = t.clone();
    assert_eq!(t, c);
    assert!(with_links(None, None) < t);
}
