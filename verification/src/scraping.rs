//! Reading a result page: where its table is, what kind of page it is, and
//! what each row of the table says.

use vstd::prelude::*;
use crate::category::{category_of, map_category};
use crate::dom::{
    attribute_views, child_at, tree_at, tree_of_node, Attribute, AttributeView, Document,
    NodeData, NodeView, Tree,
};
use crate::size::{parse_size, size_of_text};
use crate::text::{chars_of, parse_u32, parse_u64, same_chars, string_view, unsigned_value};
use crate::types::{torrent_views, Category, Error, Torrent, TorrentView};

verus! {

/// What a page of the site holds.
#[derive(Debug, Clone, Copy, PartialEq, Eq)]
pub enum Page {
    /// A table of torrents.
    Torrents,
    /// No table at all: the search found nothing.
    NoTorrents,
    /// A table without rows of data: the search has no further results.
    NoMoreTorrents,
}

/// The tree under the child at place `k` of the root of `from`, where there
/// is such a tree.
pub open spec fn step(from: Option<Tree>, k: int) -> Option<Tree> {
    match from {
        Some(tree) => tree.child(k),
        None => None,
    }
}

/// Whether the attributes hold one named `class` whose value is
/// `table-responsive`.
pub open spec fn marks_table(attrs: Seq<AttributeView>) -> bool {
    exists|i: int|
        0 <= i < attrs.len() && (#[trigger] attrs[i]).name == "class"@ && attrs[i].value
            == "table-responsive"@
}

/// Whether `node` is the element that wraps the table of results.
pub open spec fn is_table_div(node: Tree) -> bool {
    node.is_element() && marks_table(node.attrs())
}

/// Whether `node` can hold a torrent's title: an element without an
/// attribute named `class`.
pub open spec fn is_title_node(node: Tree) -> bool {
    node.is_element() && node.attr("class"@) is None
}

/// The test of [`is_table_div`].
pub open spec fn table_div_test() -> spec_fn(Tree) -> bool {
    |node: Tree| is_table_div(node)
}

/// The test of [`is_title_node`].
pub open spec fn title_test() -> spec_fn(Tree) -> bool {
    |node: Tree| is_title_node(node)
}

/// The test for the root of a tree to be an element.
pub open spec fn element_test() -> spec_fn(Tree) -> bool {
    |node: Tree| node.is_element()
}

/// The first of `nodes`, in their order, that satisfies `wanted`.
pub open spec fn first_match(nodes: Seq<Tree>, wanted: spec_fn(Tree) -> bool) -> Option<Tree>
    decreases nodes.len(),
{
    if nodes.len() == 0 {
        None
    } else if wanted(nodes[0]) {
        Some(nodes[0])
    } else {
        first_match(nodes.drop_first(), wanted)
    }
}

/// The element that wraps the table of results: the first child of `parent`
/// that is marked as such.
pub open spec fn table_div(parent: Tree) -> Option<Tree> {
    first_match(parent.children, table_div_test())
}

/// The body of the table of results of the page `page`. From the root the
/// way goes by fixed places to the page's container, there to the child
/// marked as the table's wrapper, wherever it stands, and from it by fixed
/// places to the body.
pub open spec fn table_body(page: Tree) -> Option<Tree> {
    match step(step(page.child(1), 2), 5) {
        Some(container) => step(step(table_div(container), 1), 3),
        None => None,
    }
}

/// The node at place `k` among the children of the node `from` of `t`,
/// where there is such a node.
pub open spec fn node_step(t: Seq<NodeView>, from: Option<int>, k: int) -> Option<int> {
    match from {
        Some(n) => child_at(t, n, k),
        None => None,
    }
}

/// The first of the nodes `nodes` of `t`, in their order, whose tree
/// satisfies `wanted`.
pub open spec fn first_node(t: Seq<NodeView>, nodes: Seq<int>, wanted: spec_fn(Tree) -> bool)
    -> Option<int>
    decreases nodes.len(),
{
    if nodes.len() == 0 {
        None
    } else if wanted(tree_at(t, nodes[0])) {
        Some(nodes[0])
    } else {
        first_node(t, nodes.drop_first(), wanted)
    }
}

/// The children of node `n` of `t`; none if `t` has no such node.
pub open spec fn children_at(t: Seq<NodeView>, n: int) -> Seq<int> {
    if 0 <= n < t.len() {
        t[n].children
    } else {
        Seq::empty()
    }
}

/// The node of `t` that wraps the table of results, among the children of
/// `parent`: the first whose tree is marked as such.
pub open spec fn table_div_node(t: Seq<NodeView>, parent: int) -> Option<int> {
    first_node(t, children_at(t, parent), table_div_test())
}

/// The node of `t` that is the body of the table of results: the node that
/// is reached from the root on the way that [`table_body`] describes.
pub open spec fn table_body_node(t: Seq<NodeView>) -> Option<int> {
    match node_step(t, node_step(t, child_at(t, 0, 1), 2), 5) {
        Some(container) => node_step(t, node_step(t, table_div_node(t, container), 1), 3),
        None => None,
    }
}

/// Whether `n` is the node `node`, or none as `node` is.
pub open spec fn same_node(n: Option<usize>, node: Option<int>) -> bool {
    match n {
        Some(n) => node == Some(n as int),
        None => node is None,
    }
}

/// What kind of page `page` is: without a table body it holds no torrents,
/// with a body of at most one child it holds no more, and else it holds
/// some.
pub open spec fn page_kind(page: Tree) -> Page {
    match table_body(page) {
        Some(body) => if body.children.len() > 1 {
            Page::Torrents
        } else {
            Page::NoMoreTorrents
        },
        None => Page::NoTorrents,
    }
}

/// The text in the cell at place `n` of `row`: the contents of the cell's
/// first child, if that is a text node.
pub open spec fn cell_text(row: Tree, n: int) -> Option<Seq<char>> {
    match step(row.child(n), 0) {
        Some(node) => node.text(),
        None => None,
    }
}

/// The category of `row`: what the `title` attribute of the second child of
/// the row's second cell stands for.
pub open spec fn row_category(row: Tree) -> Option<Category> {
    match step(row.child(1), 1) {
        Some(node) => match node.attr("title"@) {
            Some(text) => category_of(text),
            None => None,
        },
        None => None,
    }
}

/// The name of `row`: the text that the first title-like child of the
/// row's fourth cell begins with.
pub open spec fn row_name(row: Tree) -> Option<Seq<char>> {
    match row.child(3) {
        Some(cell) => match step(first_match(cell.children, title_test()), 0) {
            Some(node) => node.text(),
            None => None,
        },
        None => None,
    }
}

/// The link in the slot at place `k` of the link cell `cell`, if the slot
/// is there and has an `href`.
pub open spec fn slot_link(cell: Tree, k: int) -> Option<Seq<char>> {
    match cell.child(k) {
        Some(node) => node.attr("href"@),
        None => None,
    }
}

/// The two links of `row`, from the second and the fourth child of its
/// sixth cell. Either may be missing; the cell may not.
pub open spec fn row_links(row: Tree) -> Option<(Option<Seq<char>>, Option<Seq<char>>)> {
    match row.child(5) {
        Some(cell) => Some((slot_link(cell, 1), slot_link(cell, 3))),
        None => None,
    }
}

/// The size of `row` in bytes, from the text of its eighth cell.
pub open spec fn row_size(row: Tree) -> Option<u64> {
    match cell_text(row, 7) {
        Some(text) => size_of_text(text),
        None => None,
    }
}

/// The date of `row`, from the `data-timestamp` attribute of its tenth cell.
pub open spec fn row_date(row: Tree) -> Option<u64> {
    match row.child(9) {
        Some(cell) => match cell.attr("data-timestamp"@) {
            Some(text) => match unsigned_value(text, u64::MAX as nat) {
                Some(v) => Some(v as u64),
                None => None,
            },
            None => None,
        },
        None => None,
    }
}

/// The count written in the cell at place `n` of `row`.
pub open spec fn row_count(row: Tree, n: int) -> Option<u32> {
    match cell_text(row, n) {
        Some(text) => match unsigned_value(text, u32::MAX as nat) {
            Some(v) => Some(v as u32),
            None => None,
        },
        None => None,
    }
}

/// The record of `row`: there is one exactly if each of its fields is there.
pub open spec fn row_record(row: Tree) -> Option<TorrentView> {
    if row_category(row) is Some && row_name(row) is Some && row_links(row) is Some && row_size(
        row,
    ) is Some && row_date(row) is Some && row_count(row, 11) is Some && row_count(row, 13)
        is Some && row_count(row, 15) is Some {
        Some(
            TorrentView {
                category: row_category(row)->0,
                name: row_name(row)->0,
                links: row_links(row)->0,
                size: row_size(row)->0,
                date: row_date(row)->0,
                seeders: row_count(row, 11)->0,
                leechers: row_count(row, 13)->0,
                completed_downloads: row_count(row, 15)->0,
            },
        )
    } else {
        None
    }
}

/// The record of a row that has one.
pub open spec fn record_of() -> spec_fn(Tree) -> TorrentView {
    |row: Tree| row_record(row)->0
}

/// The rows of data among the children of `body`: those that are elements.
pub open spec fn data_rows(body: Tree) -> Seq<Tree> {
    body.children.filter(element_test())
}

/// The records of the rows `rows`, in order, if every one of them has one.
pub open spec fn records_of(rows: Seq<Tree>) -> Option<Seq<TorrentView>> {
    if forall|i: int| 0 <= i < rows.len() ==> (#[trigger] row_record(rows[i])) is Some {
        Some(rows.map_values(record_of()))
    } else {
        None
    }
}

/// The records of the page `page`: those of all rows of data of its table,
/// in the order of the table. There are none if the table's body is not
/// found or some row of data has no record.
pub open spec fn page_records(page: Tree) -> Option<Seq<TorrentView>> {
    match table_body(page) {
        Some(body) => records_of(data_rows(body)),
        None => None,
    }
}

/// What one page adds to a search: nothing unless the page holds torrents,
/// and then its records, or a scraping error if they cannot be read.
pub open spec fn page_outcome(page: Tree) -> Result<Seq<TorrentView>, Error> {
    if page_kind(page) == Page::Torrents {
        match page_records(page) {
            Some(records) => Ok(records),
            None => Err(Error::Scraping),
        }
    } else {
        Ok(Seq::empty())
    }
}

/// The views of the torrents of a page's result.
pub open spec fn outcome_view(r: Result<Vec<Torrent>, Error>) -> Result<Seq<TorrentView>, Error> {
    match r {
        Ok(torrents) => Ok(torrent_views(torrents@)),
        Err(e) => Err(e),
    }
}

/// The views of an optional pair of optional strings.
pub open spec fn links_view(links: Option<(Option<String>, Option<String>)>) -> Option<
    (Option<Seq<char>>, Option<Seq<char>>),
> {
    match links {
        Some((a, b)) => Some((string_view(a), string_view(b))),
        None => None,
    }
}

/// The views of an optional list of torrents.
pub open spec fn records_view(records: Option<Vec<Torrent>>) -> Option<Seq<TorrentView>> {
    match records {
        Some(torrents) => Some(torrent_views(torrents@)),
        None => None,
    }
}

/// Whether the attribute is named `class`.
pub fn is_class(att: &Attribute) -> (r: bool)
    ensures
        r == (att@.name == "class"@),
{
    same_chars(&chars_of(att.name.as_str()), &chars_of("class"))
}

/// Whether `node` is an element.
pub fn is_element(doc: &Document, node: usize) -> (r: bool)
    ensures
        r == doc.subtree(node).is_element(),
{
    doc.is_element(node)
}

/// Whether `node` can hold a torrent's title: whether it is an element
/// without an attribute named `class`.
pub fn is_title(doc: &Document, node: usize) -> (r: bool)
    ensures
        r == is_title_node(doc.subtree(node)),
{
    doc.is_element(node) && doc.attribute(node, "class").is_none()
}

/// Whether `node` is an element with an attribute `class` whose value is
/// `table-responsive`.
pub fn is_marked_table(doc: &Document, node: usize) -> (r: bool)
    ensures
        r == is_table_div(doc.subtree(node)),
{
    match doc.data(node) {
        Some(NodeData::Element { attrs, .. }) => {
            let ghost views = doc.subtree(node).attrs();
            let class = chars_of("class");
            let marker = chars_of("table-responsive");
            let mut i: usize = 0;
            while i < attrs.len()
                invariant
                    i <= attrs.len(),
                    views == attribute_views(attrs@),
                    views == doc.subtree(node).attrs(),
                    doc.subtree(node).is_element(),
                    class@ == "class"@,
                    marker@ == "table-responsive"@,
                    forall|j: int|
                        0 <= j < i ==> !((#[trigger] views[j]).name == "class"@ && views[j].value
                            == "table-responsive"@),
                decreases attrs.len() - i,
            {
                if same_chars(&chars_of(attrs[i].name.as_str()), &class) && same_chars(
                    &chars_of(attrs[i].value.as_str()),
                    &marker,
                ) {
                    assert(views[i as int].name == "class"@);
                    return true;
                }
                i += 1;
            }
            false
        },
        _ => false,
    }
}

/// The element that wraps the table of results, among the children of
/// `parent`: the first that is marked as such.
pub fn get_table_div(doc: &Document, parent: usize) -> (r: Option<usize>)
    ensures
        same_node(r, table_div_node(doc@, parent as int)),
        tree_of_node(doc@, r) == table_div(doc.subtree(parent)),
{
    let ghost kids = doc.subtree(parent).children;
    let ghost nodes = children_at(doc@, parent as int);
    let ghost wanted = table_div_test();
    let count = doc.child_count(parent);
    let mut i: usize = 0;
    assert(kids.skip(0) =~= kids);
    assert(nodes.skip(0) =~= nodes);
    while i < count
        invariant
            i <= count,
            count == kids.len(),
            kids == doc.subtree(parent).children,
            nodes == children_at(doc@, parent as int),
            nodes.len() == count,
            wanted == table_div_test(),
            first_match(kids, wanted) == first_match(kids.skip(i as int), wanted),
            first_node(doc@, nodes, wanted) == first_node(doc@, nodes.skip(i as int), wanted),
        decreases count - i,
    {
        assert(kids.skip(i as int).drop_first() =~= kids.skip(i + 1));
        assert(nodes.skip(i as int).drop_first() =~= nodes.skip(i + 1));
        match doc.child(parent, i) {
            Some(node) => {
                if is_marked_table(doc, node) {
                    return Some(node);
                }
            },
            None => {},
        }
        i += 1;
    }
    None
}

/// The body of the table of results of the page, if the page has one where
/// it is expected.
pub fn get_table_body(doc: &Document) -> (r: Option<usize>)
    ensures
        same_node(r, table_body_node(doc@)),
        tree_of_node(doc@, r) == table_body(doc.tree()),
{
    let html = doc.child(0, 1)?;
    let body = doc.child(html, 2)?;
    let container = doc.child(body, 5)?;
    let div = get_table_div(doc, container)?;
    let table = doc.child(div, 1)?;
    doc.child(table, 3)
}

/// A page is told by the body of its table. Without a body it holds no
/// torrents; with a body of no child or one it holds no more torrents; either
/// way it adds no record to a search. With a body of two children or more
/// it holds torrents.
pub proof fn lemma_page_kind_by_children(page: Tree)
    ensures
        table_body(page) is None ==> page_kind(page) == Page::NoTorrents,
        table_body(page) is Some && table_body(page)->0.children.len() <= 1 ==> page_kind(page)
            == Page::NoMoreTorrents,
        table_body(page) is Some && table_body(page)->0.children.len() >= 2 ==> page_kind(page)
            == Page::Torrents,
        page_kind(page) != Page::Torrents ==> page_outcome(page) == Ok::<
            Seq<TorrentView>,
            Error,
        >(Seq::empty()),
{
}

/// Tells what the page holds.
pub fn identify_page(doc: &Document) -> (r: Page)
    ensures
        r == page_kind(doc.tree()),
{
    match get_table_body(doc) {
        Some(body) => {
            if doc.child_count(body) > 1 {
                Page::Torrents
            } else {
                Page::NoMoreTorrents
            }
        },
        None => Page::NoTorrents,
    }
}

/// The text in the cell at place `n` of `row`.
pub fn get_text(doc: &Document, row: usize, n: usize) -> (r: Option<String>)
    ensures
        string_view(r) == cell_text(doc.subtree(row), n as int),
{
    let cell = doc.child(row, n)?;
    let node = doc.child(cell, 0)?;
    doc.text(node)
}

/// The category of the torrent in `row`.
pub fn get_category(doc: &Document, row: usize) -> (r: Option<Category>)
    ensures
        r == row_category(doc.subtree(row)),
{
    let cell = doc.child(row, 1)?;
    let node = doc.child(cell, 1)?;
    let text = doc.attribute(node, "title")?;
    map_category(text.as_str())
}

/// The name of the torrent in `row`.
pub fn get_name(doc: &Document, row: usize) -> (r: Option<String>)
    ensures
        string_view(r) == row_name(doc.subtree(row)),
{
    let cell = doc.child(row, 3)?;
    let ghost kids = doc.subtree(cell).children;
    let ghost wanted = title_test();
    let count = doc.child_count(cell);
    let mut i: usize = 0;
    assert(kids.skip(0) =~= kids);
    while i < count
        invariant
            i <= count,
            count == kids.len(),
            kids == doc.subtree(cell).children,
            doc.subtree(row).child(3) == Some(doc.subtree(cell)),
            wanted == title_test(),
            first_match(kids, wanted) == first_match(kids.skip(i as int), wanted),
        decreases count - i,
    {
        assert(kids.skip(i as int).drop_first() =~= kids.skip(i + 1));
        match doc.child(cell, i) {
            Some(node) => {
                if is_title(doc, node) {
                    let first = doc.child(node, 0)?;
                    return doc.text(first);
                }
            },
            None => {},
        }
        i += 1;
    }
    None
}

/// The link in the slot at place `k` of the link cell `cell`.
pub fn get_link(doc: &Document, cell: usize, k: usize) -> (r: Option<String>)
    ensures
        string_view(r) == slot_link(doc.subtree(cell), k as int),
{
    let node = doc.child(cell, k)?;
    doc.attribute(node, "href")
}

/// The two links of the torrent in `row`, as they stand in the row.
pub fn get_links(doc: &Document, row: usize) -> (r: Option<(Option<String>, Option<String>)>)
    ensures
        links_view(r) == row_links(doc.subtree(row)),
{
    let cell = doc.child(row, 5)?;
    let first = get_link(doc, cell, 1);
    let second = get_link(doc, cell, 3);
    Some((first, second))
}

/// The date of the torrent in `row`.
pub fn get_date(doc: &Document, row: usize) -> (r: Option<u64>)
    ensures
        r == row_date(doc.subtree(row)),
{
    let cell = doc.child(row, 9)?;
    let text = doc.attribute(cell, "data-timestamp")?;
    parse_u64(text.as_str())
}

/// The size of the torrent in `row`.
pub fn get_size(doc: &Document, row: usize) -> (r: Option<u64>)
    ensures
        r == row_size(doc.subtree(row)),
{
    let text = get_text(doc, row, 7)?;
    parse_size(text.as_str())
}

/// The count written in the cell at place `n` of `row`.
pub fn get_count(doc: &Document, row: usize, n: usize) -> (r: Option<u32>)
    ensures
        r == row_count(doc.subtree(row), n as int),
{
    let text = get_text(doc, row, n)?;
    parse_u32(text.as_str())
}

/// The number of seeders of the torrent in `row`.
pub fn get_seeders(doc: &Document, row: usize) -> (r: Option<u32>)
    ensures
        r == row_count(doc.subtree(row), 11),
{
    get_count(doc, row, 11)
}

/// The number of leechers of the torrent in `row`.
pub fn get_leechers(doc: &Document, row: usize) -> (r: Option<u32>)
    ensures
        r == row_count(doc.subtree(row), 13),
{
    get_count(doc, row, 13)
}

/// The number of completed downloads of the torrent in `row`.
pub fn get_completed_downloads(doc: &Document, row: usize) -> (r: Option<u32>)
    ensures
        r == row_count(doc.subtree(row), 15),
{
    get_count(doc, row, 15)
}

/// The view of an optional torrent.
pub open spec fn record_view(record: Option<Torrent>) -> Option<TorrentView> {
    match record {
        Some(torrent) => Some(torrent@),
        None => None,
    }
}

/// Reads the torrent of one row of data. There is a torrent exactly if the
/// row has each of its fields; a row that lacks one gives nothing at all.
pub fn parse_row(doc: &Document, row: usize) -> (r: Option<Torrent>)
    ensures
        record_view(r) == row_record(doc.subtree(row)),
{
    let category = get_category(doc, row)?;
    let name = get_name(doc, row)?;
    let links = get_links(doc, row)?;
    let size = get_size(doc, row)?;
    let date = get_date(doc, row)?;
    let seeders = get_seeders(doc, row)?;
    let leechers = get_leechers(doc, row)?;
    let completed_downloads = get_completed_downloads(doc, row)?;
    Some(Torrent { category, name, links, size, date, seeders, leechers, completed_downloads })
}

/// Reading a row is a function of the document and the row: whatever two
/// readings of the same row of the same document return, they return equal
/// records, or both return none.
pub proof fn lemma_parse_row_repeatable(
    doc: &Document,
    row: usize,
    first: Option<Torrent>,
    second: Option<Torrent>,
)
    requires
        call_ensures(parse_row, (doc, row), first),
        call_ensures(parse_row, (doc, row), second),
    ensures
        record_view(first) == record_view(second),
{
}

/// Reads the torrents of a page, one for each row of data of its table, in
/// the order of the table.
pub fn parse_page(doc: &Document) -> (r: Option<Vec<Torrent>>)
    ensures
        records_view(r) == page_records(doc.tree()),
{
    let body = get_table_body(doc)?;
    let ghost kids = doc.subtree(body).children;
    let ghost wanted = element_test();
    let ghost record = record_of();
    let count = doc.child_count(body);
    let mut torrents: Vec<Torrent> = Vec::new();
    let mut i: usize = 0;
    proof {
        reveal(Seq::filter);
        assert(kids.take(0) =~= Seq::<Tree>::empty());
        assert(torrent_views(torrents@) =~= kids.take(0).filter(wanted).map_values(record));
    }
    while i < count
        invariant
            i <= count,
            count == kids.len(),
            kids == doc.subtree(body).children,
            table_body(doc.tree()) == Some(doc.subtree(body)),
            wanted == element_test(),
            record == record_of(),
            forall|j: int|
                0 <= j < kids.take(i as int).filter(wanted).len() ==> (#[trigger] row_record(
                    kids.take(i as int).filter(wanted)[j],
                )) is Some,
            torrent_views(torrents@) == kids.take(i as int).filter(wanted).map_values(record),
        decreases count - i,
    {
        let ghost done = kids.take(i as int).filter(wanted);
        proof {
            reveal(Seq::filter);
            assert(kids.take(i + 1).drop_last() =~= kids.take(i as int));
            assert(kids.take(i + 1).last() == kids[i as int]);
        }
        match doc.child(body, i) {
            Some(row) => {
                if is_element(doc, row) {
                    match parse_row(doc, row) {
                        Some(torrent) => {
                            proof {
                                let next = kids.take(i + 1).filter(wanted);
                                assert(next == done.push(doc.subtree(row)));
                                assert(torrent@ == record(doc.subtree(row)));
                                let grown = torrent_views(torrents@.push(torrent));
                                let wanted_views = next.map_values(record);
                                assert(torrent_views(torrents@).len() == torrents@.len());
                                assert(done.map_values(record).len() == done.len());
                                assert(grown.len() == wanted_views.len());
                                assert forall|j: int| 0 <= j < grown.len() implies grown[j]
                                    == wanted_views[j] by {
                                    if j < done.len() {
                                        assert(grown[j] == torrent_views(torrents@)[j]);
                                        assert(wanted_views[j] == done.map_values(record)[j]);
                                    }
                                }
                                assert(grown =~= wanted_views);
                            }
                            torrents.push(torrent);
                        },
                        None => {
                            proof {
                                let rows = data_rows(doc.subtree(body));
                                kids.lemma_filter_contains(wanted, i as int);
                                let j = choose|j: int|
                                    0 <= j < rows.len() && rows[j] == doc.subtree(row);
                                assert(row_record(rows[j]) is None);
                            }
                            return None;
                        },
                    }
                }
            },
            None => {},
        }
        i += 1;
    }
    proof {
        assert(kids.take(count as int) =~= kids);
    }
    Some(torrents)
}

/// What one page adds to a search. A page without torrents, or without
/// more of them, adds none; a page with torrents adds its records, and is a
/// scraping error if they cannot all be read.
pub fn torrent_search_page(doc: &Document) -> (r: Result<Vec<Torrent>, Error>)
    ensures
        outcome_view(r) == page_outcome(doc.tree()),
{
    match identify_page(doc) {
        Page::Torrents => match parse_page(doc) {
            Some(torrents) => Ok(torrents),
            None => Err(Error::Scraping),
        },
        Page::NoMoreTorrents => empty_page(),
        Page::NoTorrents => empty_page(),
    }
}

/// What a page without torrents adds to a search: no record, and no error.
fn empty_page() -> (r: Result<Vec<Torrent>, Error>)
    ensures
        outcome_view(r) == Ok::<Seq<TorrentView>, Error>(Seq::empty()),
{
    let torrents: Vec<Torrent> = Vec::new();
    assert(torrent_views(torrents@) =~= Seq::<TorrentView>::empty());
    Ok(torrents)
}

} // verus!
