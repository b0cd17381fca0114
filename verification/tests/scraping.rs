use nyaadesu::{
    get_category, get_completed_downloads, get_date, get_leechers, get_links, get_name,
    get_seeders, get_size, get_table_body, get_table_div, get_text, identify_page, is_class,
    is_element, is_title, parse_document, parse_page, parse_row, torrent_search_page, Anime,
    Attribute, Audio, Category, Document, Error, NodeData, Page, Torrent,
};

fn row_html(id: u32, category: &str, name: &str, size: &str, date: &str, counts: (&str, &str, &str)) -> String {
    format!(
        "<tr class=\"default\">\n<td>\n<a href=\"/?c=1_2\" title=\"{category}\">\n<img src=\"/static/1_2.png\" alt=\"{category}\" class=\"category-icon\">\n</a>\n</td>\n<td colspan=\"2\">\n<a href=\"/view/{id}#comments\" class=\"comments\" title=\"1 comment\"><i class=\"fa\"></i>1</a>\n<a href=\"/view/{id}\" title=\"{name}\">{name}</a>\n</td>\n<td class=\"text-center\">\n<a href=\"/download/{id}.torrent\"><i class=\"fa\"></i></a>\n<a href=\"magnet:?xt=urn:btih:{id}\"><i class=\"fa\"></i></a>\n</td>\n<td class=\"text-center\">{size}</td>\n<td class=\"text-center\" data-timestamp=\"{date}\">2019-01-01 00:00</td>\n<td class=\"text-center\">{s}</td>\n<td class=\"text-center\">{l}</td>\n<td class=\"text-center\">{c}</td>\n</tr>\n",
        id = id,
        category = category,
        name = name,
        size = size,
        date = date,
        s = counts.0,
        l = counts.1,
        c = counts.2,
    )
}

fn page_html(rows: &str) -> String {
    format!(
        "<!DOCTYPE html>\n<html lang=\"en\">\n<head><title>results</title></head>\n<body>\n<nav></nav>\n<div id=\"banner\"></div>\n<div class=\"container\">\n<div class=\"alert\">notice</div>\n<div class=\"table-responsive\">\n<table class=\"table\">\n<thead><tr><th>Name</th></tr></thead>\n<tbody>\n{}</tbody>\n</table>\n</div>\n</div>\n</body>\n</html>\n",
        rows
    )
}

fn three_rows() -> String {
    let mut rows = String::new();
    rows.push_str(&row_html(101, "Anime - English-translated", "First Show - 01", "1.4 GiB", "1546300800", ("10", "2", "345")));
    rows.push_str(&row_html(102, "Audio - Lossless", "Second Album", "350.2 MiB", "1546300900", ("0", "0", "7")));
    rows.push_str(&row_html(103, "Anime - Raw", "Third Show", "12 Bytes", "1546301000", ("4294967295", "1", "0")));
    rows
}

fn parsed(html: &str) -> Document {
    parse_document(html.as_bytes()).unwrap()
}

fn first_row(doc: &Document) -> usize {
    let body = get_table_body(doc).unwrap();
    doc.child(body, 1).unwrap()
}

fn element(name: &str, attrs: &[(&str, &str)]) -> NodeData {
    NodeData::Element {
        name: name.to_string(),
        attrs: attrs
            .iter()
            .map(|(n, v)| Attribute { name: n.to_string(), value: v.to_string() })
            .collect(),
    }
}

fn text(contents: &str) -> NodeData {
    NodeData::Text { contents: contents.to_string() }
}

/// A document that holds a table body where a page has it, and nothing in it.
fn skeleton() -> (Document, usize) {
    let mut doc = Document::new();
    doc.add_child(0, NodeData::Other).unwrap();
    let html = doc.add_child(0, element("html", &[])).unwrap();
    doc.add_child(html, element("head", &[])).unwrap();
    doc.add_child(html, text("\n")).unwrap();
    let body = doc.add_child(html, element("body", &[])).unwrap();
    for _ in 0..5 {
        doc.add_child(body, text("\n")).unwrap();
    }
    let container = doc.add_child(body, element("div", &[("class", "container")])).unwrap();
    doc.add_child(container, text("\n")).unwrap();
    let div = doc
        .add_child(container, element("div", &[("id", "t"), ("class", "table-responsive")]))
        .unwrap();
    doc.add_child(div, text("\n")).unwrap();
    let table = doc.add_child(div, element("table", &[])).unwrap();
    doc.add_child(table, text("\n")).unwrap();
    doc.add_child(table, element("thead", &[])).unwrap();
    doc.add_child(table, text("\n")).unwrap();
    let tbody = doc.add_child(table, element("tbody", &[])).unwrap();
    (doc, tbody)
}

#[test]
fn locates_the_table_body_of_a_result_page() {
    let doc = parsed(&page_html(&three_rows()));
    let body = get_table_body(&doc).unwrap();
    match doc.data(body) {
        Some(NodeData::Element { name, .. }) => assert_eq!(name, "tbody"),
        _ => panic!("the table body is no element"),
    }
    assert_eq!(doc.child_count(body), 7);
}

#[test]
fn finds_the_marked_wrapper_wherever_it_stands() {
    let doc = parsed(&page_html(&three_rows()));
    let html = doc.child(0, 1).unwrap();
    let body = doc.child(html, 2).unwrap();
    let container = doc.child(body, 5).unwrap();
    let div = get_table_div(&doc, container).unwrap();
    assert_eq!(doc.attribute(div, "class"), Some("table-responsive".to_string()));
    assert_eq!(doc.child(container, 3), Some(div));
    assert_eq!(get_table_div(&doc, body), None);
}

#[test]
fn a_page_without_the_wrapper_has_no_table_body() {
    let doc = parsed("<!DOCTYPE html>\n<html>\n<head></head>\n<body>\n<nav></nav>\n<div></div>\n<div class=\"container\">\n<h3>No results found</h3>\n</div>\n</body>\n</html>");
    assert_eq!(get_table_body(&doc), None);
    assert_eq!(identify_page(&doc), Page::NoTorrents);
    assert_eq!(torrent_search_page(&doc), Ok(vec![]));
}

#[test]
fn a_short_document_has_no_table_body() {
    let doc = Document::new();
    assert_eq!(get_table_body(&doc), None);
    assert_eq!(identify_page(&doc), Page::NoTorrents);
    assert_eq!(parse_page(&doc), None);
}

#[test]
fn classifies_a_body_by_the_number_of_its_children() {
    let (mut doc, tbody) = skeleton();
    assert_eq!(get_table_body(&doc), Some(tbody));
    assert_eq!(identify_page(&doc), Page::NoMoreTorrents);
    assert_eq!(torrent_search_page(&doc), Ok(vec![]));
    doc.add_child(tbody, text("\n")).unwrap();
    assert_eq!(identify_page(&doc), Page::NoMoreTorrents);
    assert_eq!(torrent_search_page(&doc), Ok(vec![]));
    doc.add_child(tbody, text("\n")).unwrap();
    assert_eq!(identify_page(&doc), Page::Torrents);
    doc.add_child(tbody, text("\n")).unwrap();
    assert_eq!(identify_page(&doc), Page::Torrents);
}

#[test]
fn one_element_child_counts_as_no_more_results() {
    let (mut doc, tbody) = skeleton();
    doc.add_child(tbody, element("tr", &[])).unwrap();
    assert_eq!(identify_page(&doc), Page::NoMoreTorrents);
    assert_eq!(torrent_search_page(&doc), Ok(vec![]));
}

#[test]
fn an_empty_table_of_a_parsed_page_means_no_more_results() {
    let doc = parsed(&page_html(""));
    let body = get_table_body(&doc).unwrap();
    assert_eq!(doc.child_count(body), 1);
    assert_eq!(identify_page(&doc), Page::NoMoreTorrents);
    assert_eq!(torrent_search_page(&doc), Ok(vec![]));
}

#[test]
fn reads_each_field_of_a_row() {
    let doc = parsed(&page_html(&three_rows()));
    let row = first_row(&doc);
    assert!(is_element(&doc, row));
    assert_eq!(get_category(&doc, row), Some(Category::Anime(Anime::EnglishTranslated)));
    assert_eq!(get_name(&doc, row), Some("First Show - 01".to_string()));
    assert_eq!(
        get_links(&doc, row),
        Some((
            Some("/download/101.torrent".to_string()),
            Some("magnet:?xt=urn:btih:101".to_string())
        ))
    );
    assert_eq!(get_size(&doc, row), Some(1503238554));
    assert_eq!(get_date(&doc, row), Some(1546300800));
    assert_eq!(get_seeders(&doc, row), Some(10));
    assert_eq!(get_leechers(&doc, row), Some(2));
    assert_eq!(get_completed_downloads(&doc, row), Some(345));
    assert_eq!(get_text(&doc, row, 7), Some("1.4 GiB".to_string()));
    assert_eq!(get_text(&doc, row, 8), None);
    assert_eq!(get_text(&doc, row, 17), None);
}

#[test]
fn reads_a_row_into_a_torrent() {
    let doc = parsed(&page_html(&three_rows()));
    let row = first_row(&doc);
    let expected = Torrent {
        category: Category::Anime(Anime::EnglishTranslated),
        name: "First Show - 01".to_string(),
        links: (
            Some("/download/101.torrent".to_string()),
            Some("magnet:?xt=urn:btih:101".to_string()),
        ),
        size: 1503238554,
        date: 1546300800,
        seeders: 10,
        leechers: 2,
        completed_downloads: 345,
    };
    assert_eq!(parse_row(&doc, row), Some(expected));
}

#[test]
fn reading_a_row_twice_gives_equal_torrents() {
    let doc = parsed(&page_html(&three_rows()));
    let row = first_row(&doc);
    let first = parse_row(&doc, row);
    let second = parse_row(&doc, row);
    assert!(first.is_some());
    assert_eq!(first, second);
}

#[test]
fn reads_all_rows_of_a_page_in_order() {
    let doc = parsed(&page_html(&three_rows()));
    assert_eq!(identify_page(&doc), Page::Torrents);
    let torrents = parse_page(&doc).unwrap();
    assert_eq!(torrents.len(), 3);
    assert_eq!(torrents[0].name, "First Show - 01");
    assert_eq!(torrents[1].name, "Second Album");
    assert_eq!(torrents[1].category, Category::Audio(Audio::Lossless));
    assert_eq!(torrents[1].size, 367211315);
    assert_eq!(torrents[2].name, "Third Show");
    assert_eq!(torrents[2].size, 12);
    assert_eq!(torrents[2].seeders, 4294967295);
    assert_eq!(torrent_search_page(&doc), Ok(torrents));
}

#[test]
fn a_row_with_an_unknown_category_fails_the_page() {
    let mut rows = three_rows();
    rows.push_str(&row_html(104, "Anime - Dubbed", "Fourth", "1 KiB", "1", ("1", "1", "1")));
    let doc = parsed(&page_html(&rows));
    let body = get_table_body(&doc).unwrap();
    let bad = doc.child(body, 7).unwrap();
    assert_eq!(get_category(&doc, bad), None);
    assert_eq!(parse_row(&doc, bad), None);
    assert_eq!(parse_page(&doc), None);
    assert_eq!(torrent_search_page(&doc), Err(Error::Scraping));
}

#[test]
fn a_row_with_an_unknown_unit_fails_the_page() {
    let rows = row_html(1, "Anime - Raw", "A", "1.4 GB", "1", ("1", "1", "1"))
        + &row_html(2, "Anime - Raw", "B", "1.4 GiB", "1", ("1", "1", "1"));
    let doc = parsed(&page_html(&rows));
    assert_eq!(get_size(&doc, first_row(&doc)), None);
    assert_eq!(torrent_search_page(&doc), Err(Error::Scraping));
}

#[test]
fn a_row_with_a_count_that_is_no_number_fails() {
    let rows = row_html(1, "Anime - Raw", "A", "1 KiB", "1", ("many", "1", "1"))
        + &row_html(2, "Anime - Raw", "B", "1 KiB", "1", ("1", "-1", "4294967296"));
    let doc = parsed(&page_html(&rows));
    let body = get_table_body(&doc).unwrap();
    let first = doc.child(body, 1).unwrap();
    let second = doc.child(body, 3).unwrap();
    assert_eq!(get_seeders(&doc, first), None);
    assert_eq!(get_leechers(&doc, first), Some(1));
    assert_eq!(get_seeders(&doc, second), Some(1));
    assert_eq!(get_leechers(&doc, second), None);
    assert_eq!(get_completed_downloads(&doc, second), None);
    assert_eq!(parse_row(&doc, first), None);
}

#[test]
fn a_date_that_is_no_number_fails_the_row() {
    let rows = row_html(1, "Anime - Raw", "A", "1 KiB", "yesterday", ("1", "1", "1"))
        + &row_html(2, "Anime - Raw", "B", "1 KiB", "18446744073709551615", ("1", "1", "1"));
    let doc = parsed(&page_html(&rows));
    let body = get_table_body(&doc).unwrap();
    assert_eq!(get_date(&doc, doc.child(body, 1).unwrap()), None);
    assert_eq!(get_date(&doc, doc.child(body, 3).unwrap()), Some(u64::MAX));
    assert_eq!(parse_row(&doc, doc.child(body, 1).unwrap()), None);
}

#[test]
fn missing_links_are_no_failure() {
    let (mut doc, tbody) = skeleton();
    let row = doc.add_child(tbody, element("tr", &[])).unwrap();
    for _ in 0..5 {
        doc.add_child(row, text("\n")).unwrap();
    }
    let cell = doc.add_child(row, element("td", &[])).unwrap();
    assert_eq!(get_links(&doc, row), Some((None, None)));
    doc.add_child(cell, text("\n")).unwrap();
    doc.add_child(cell, element("a", &[("href", "magnet:?xt=1")])).unwrap();
    assert_eq!(get_links(&doc, row), Some((Some("magnet:?xt=1".to_string()), None)));
    doc.add_child(cell, text("\n")).unwrap();
    doc.add_child(cell, element("a", &[("class", "x")])).unwrap();
    assert_eq!(get_links(&doc, row), Some((Some("magnet:?xt=1".to_string()), None)));
}

#[test]
fn a_row_without_a_link_cell_has_no_links() {
    let (mut doc, tbody) = skeleton();
    let row = doc.add_child(tbody, element("tr", &[])).unwrap();
    for _ in 0..5 {
        doc.add_child(row, text("\n")).unwrap();
    }
    assert_eq!(get_links(&doc, row), None);
    assert_eq!(get_links(&doc, 100_000), None);
}

#[test]
fn the_last_of_several_attributes_of_one_name_counts() {
    let (mut doc, tbody) = skeleton();
    let row = doc.add_child(tbody, element("tr", &[])).unwrap();
    doc.add_child(row, text("\n")).unwrap();
    let cell = doc.add_child(row, element("td", &[])).unwrap();
    doc.add_child(cell, text("\n")).unwrap();
    doc.add_child(
        cell,
        element("a", &[("title", "Anime - Raw"), ("href", "/"), ("title", "Audio - Lossy")]),
    )
    .unwrap();
    assert_eq!(get_category(&doc, row), Some(Category::Audio(Audio::Lossy)));
}

#[test]
fn the_name_is_the_text_of_the_first_link_without_a_class() {
    let (mut doc, tbody) = skeleton();
    let row = doc.add_child(tbody, element("tr", &[])).unwrap();
    for _ in 0..3 {
        doc.add_child(row, text("\n")).unwrap();
    }
    let cell = doc.add_child(row, element("td", &[])).unwrap();
    assert_eq!(get_name(&doc, row), None);
    doc.add_child(cell, text("not a link")).unwrap();
    let icon = doc.add_child(cell, element("a", &[("class", "comments")])).unwrap();
    doc.add_child(icon, text("3")).unwrap();
    assert!(!is_title(&doc, icon));
    assert_eq!(get_name(&doc, row), None);
    let title = doc.add_child(cell, element("a", &[("href", "/view/1")])).unwrap();
    assert!(is_title(&doc, title));
    assert_eq!(get_name(&doc, row), None);
    doc.add_child(title, text("")).unwrap();
    let later = doc.add_child(cell, element("a", &[])).unwrap();
    doc.add_child(later, text("later")).unwrap();
    assert_eq!(get_name(&doc, row), Some(String::new()));
}

#[test]
fn a_title_that_begins_with_an_element_gives_no_name() {
    let (mut doc, tbody) = skeleton();
    let row = doc.add_child(tbody, element("tr", &[])).unwrap();
    for _ in 0..3 {
        doc.add_child(row, text("\n")).unwrap();
    }
    let cell = doc.add_child(row, element("td", &[])).unwrap();
    let title = doc.add_child(cell, element("a", &[])).unwrap();
    let bold = doc.add_child(title, element("b", &[])).unwrap();
    doc.add_child(bold, text("name")).unwrap();
    assert_eq!(get_name(&doc, row), None);
}

#[test]
fn tells_elements_and_class_attributes() {
    let (mut doc, tbody) = skeleton();
    let t = doc.add_child(tbody, text("x")).unwrap();
    assert!(is_element(&doc, tbody));
    assert!(!is_element(&doc, t));
    assert!(!is_element(&doc, 0));
    assert!(!is_element(&doc, 1_000_000));
    assert!(!is_title(&doc, t));
    assert!(is_class(&Attribute { name: "class".to_string(), value: "a".to_string() }));
    assert!(!is_class(&Attribute { name: "Class".to_string(), value: "a".to_string() }));
    assert!(!is_class(&Attribute { name: "classes".to_string(), value: "a".to_string() }));
}

#[test]
fn rows_that_are_no_elements_are_passed_over() {
    let doc = parsed(&page_html(&three_rows()));
    let body = get_table_body(&doc).unwrap();
    assert!(!is_element(&doc, doc.child(body, 0).unwrap()));
    assert!(is_element(&doc, doc.child(body, 1).unwrap()));
    assert_eq!(parse_page(&doc).unwrap().len(), 3);
}
