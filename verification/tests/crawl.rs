use nyaadesu::{parse_document, Crawler, Error, Fetched, Step, Torrent};

fn row_html(id: u32, size: &str) -> String {
    format!(
        "<tr>\n<td>\n<a href=\"/?c=1_2\" title=\"Anime - Raw\"></a>\n</td>\n<td>\n<a href=\"/view/{id}\">Show {id}</a>\n</td>\n<td>\n<a href=\"/download/{id}.torrent\"></a>\n<a href=\"magnet:?xt={id}\"></a>\n</td>\n<td>{size}</td>\n<td data-timestamp=\"{id}\">then</td>\n<td>1</td>\n<td>2</td>\n<td>3</td>\n</tr>\n",
        id = id,
        size = size,
    )
}

fn page_html(rows: &str) -> Vec<u8> {
    format!(
        "<!DOCTYPE html>\n<html>\n<head></head>\n<body>\n<nav></nav>\n<div></div>\n<div class=\"container\">\n<div class=\"table-responsive\">\n<table>\n<thead></thead>\n<tbody>\n{}</tbody>\n</table>\n</div>\n</div>\n</body>\n</html>\n",
        rows
    )
    .into_bytes()
}

fn page_of(ids: &[u32]) -> Vec<u8> {
    let mut rows = String::new();
    for id in ids {
        rows.push_str(&row_html(*id, "1 KiB"));
    }
    page_html(&rows)
}

/// Runs a search over pages that are given beforehand, and counts the
/// fetches.
fn run(pages: Vec<Fetched>, last_page: u32) -> (Result<Vec<Torrent>, Error>, usize) {
    let mut crawler = Crawler::new(last_page);
    let mut fetches = 0;
    let mut pages = pages.into_iter();
    loop {
        assert_eq!(crawler.page() as usize, fetches);
        let fetched = pages.next().expect("the search asked for a page too many");
        fetches += 1;
        match crawler.receive(fetched) {
            Step::Continue(next) => crawler = next,
            Step::Finished(result) => return (result, fetches),
        }
    }
}

fn names(torrents: &[Torrent]) -> Vec<String> {
    torrents.iter().map(|t| t.name.clone()).collect()
}

#[test]
fn stops_at_the_first_page_without_rows() {
    let pages = vec![
        Fetched::Body(page_of(&[1, 2, 3])),
        Fetched::Body(page_of(&[4, 5, 6])),
        Fetched::Body(page_of(&[])),
        Fetched::Body(page_of(&[7])),
    ];
    let (result, fetches) = run(pages, u32::MAX);
    let torrents = result.unwrap();
    assert_eq!(fetches, 3);
    assert_eq!(torrents.len(), 6);
    assert_eq!(names(&torrents), vec!["Show 1", "Show 2", "Show 3", "Show 4", "Show 5", "Show 6"]);
}

#[test]
fn a_failed_fetch_drops_what_was_found() {
    let pages = vec![Fetched::Body(page_of(&[1, 2, 3])), Fetched::Failed];
    let (result, fetches) = run(pages, u32::MAX);
    assert_eq!(result, Err(Error::Request));
    assert_eq!(fetches, 2);
}

#[test]
fn a_failed_first_fetch_is_a_request_error() {
    let (result, fetches) = run(vec![Fetched::Failed], u32::MAX);
    assert_eq!(result, Err(Error::Request));
    assert_eq!(fetches, 1);
}

#[test]
fn a_search_without_results_is_empty() {
    let none = b"<!DOCTYPE html><html><head></head><body><h3>No results found</h3></body></html>";
    let (result, fetches) = run(vec![Fetched::Body(none.to_vec())], u32::MAX);
    assert_eq!(result, Ok(vec![]));
    assert_eq!(fetches, 1);
    let (result, fetches) = run(vec![Fetched::Body(Vec::new())], u32::MAX);
    assert_eq!(result, Ok(vec![]));
    assert_eq!(fetches, 1);
}

#[test]
fn a_page_that_cannot_be_read_drops_what_was_found() {
    let mut rows = row_html(4, "1 KiB");
    rows.push_str(&row_html(5, "1 KB"));
    let pages = vec![Fetched::Body(page_of(&[1, 2, 3])), Fetched::Body(page_html(&rows))];
    let (result, fetches) = run(pages, u32::MAX);
    assert_eq!(result, Err(Error::Scraping));
    assert_eq!(fetches, 2);
}

#[test]
fn a_search_that_may_not_go_on_is_exhausted() {
    let pages = vec![
        Fetched::Body(page_of(&[1, 2])),
        Fetched::Body(page_of(&[3])),
        Fetched::Body(page_of(&[])),
    ];
    let (result, fetches) = run(pages, 1);
    assert_eq!(result, Err(Error::Exhausted));
    assert_eq!(fetches, 2);
}

#[test]
fn a_search_that_ends_on_its_last_page_is_complete() {
    let pages = vec![Fetched::Body(page_of(&[1, 2])), Fetched::Body(page_of(&[]))];
    let (result, fetches) = run(pages, 1);
    assert_eq!(result.unwrap().len(), 2);
    assert_eq!(fetches, 2);
    let (result, fetches) = run(vec![Fetched::Body(page_of(&[]))], 0);
    assert_eq!(result, Ok(vec![]));
    assert_eq!(fetches, 1);
    let (result, _) = run(vec![Fetched::Body(page_of(&[1]))], 0);
    assert_eq!(result, Err(Error::Exhausted));
}

#[test]
fn goes_on_page_by_page() {
    let crawler = Crawler::new(10);
    assert_eq!(crawler.page(), 0);
    assert_eq!(crawler.found(), 0);
    let doc = parse_document(&page_of(&[1, 2, 3])).unwrap();
    let crawler = match crawler.read_page(&doc) {
        Step::Continue(next) => next,
        Step::Finished(_) => panic!("the search ended on a page with rows"),
    };
    assert_eq!(crawler.page(), 1);
    assert_eq!(crawler.found(), 3);
    let crawler = match crawler.absorb(Ok(parse_document(&page_of(&[9])).map(|d| nyaadesu::parse_page(&d).unwrap()).unwrap())) {
        Step::Continue(next) => next,
        Step::Finished(_) => panic!("the search ended on a page with rows"),
    };
    assert_eq!(crawler.page(), 2);
    assert_eq!(crawler.found(), 4);
    match crawler.absorb(Ok(vec![])) {
        Step::Finished(Ok(torrents)) => {
            assert_eq!(names(&torrents), vec!["Show 1", "Show 2", "Show 3", "Show 9"])
        }
        _ => panic!("the search went on after a page without rows"),
    }
}

#[test]
fn an_error_ends_the_search_with_that_error() {
    let doc = parse_document(&page_of(&[1])).unwrap();
    let crawler = match Crawler::new(5).read_page(&doc) {
        Step::Continue(next) => next,
        Step::Finished(_) => panic!("the search ended on a page with rows"),
    };
    assert!(matches!(crawler.absorb(Err(Error::Scraping)), Step::Finished(Err(Error::Scraping))));
    assert!(matches!(Crawler::new(5).absorb(Err(Error::Request)), Step::Finished(Err(Error::Request))));
}

#[test]
fn a_body_beyond_the_limit_is_a_scraping_error() {
    let long = vec![0u8; nyaadesu::html::PARSE_LIMIT + 1];
    let (result, fetches) = run(vec![Fetched::Body(long)], u32::MAX);
    assert_eq!(result, Err(Error::Scraping));
    assert_eq!(fetches, 1);
}
