//! A search as a sequence of decisions: which page to fetch next, and what
//! to return when no further page is wanted. Fetching itself is the
//! caller's part.

use vstd::prelude::*;
use crate::dom::Document;
use crate::html::{html_tree, parsable, parse_document};
use crate::scraping::{outcome_view, page_outcome, torrent_search_page};
use crate::types::{torrent_views, Error, Torrent, TorrentView};

verus! {

/// A search under way: the page to fetch next, the last page that may be
/// fetched, and the torrents of the pages read so far.
#[derive(Debug)]
pub struct Crawler {
    page: u32,
    last_page: u32,
    found: Vec<Torrent>,
}

/// What came of fetching a page.
#[derive(Debug)]
pub enum Fetched {
    /// The page could not be fetched.
    Failed,
    /// The bytes of the page.
    Body(Vec<u8>),
}

/// How a search goes on after a page.
#[derive(Debug)]
pub enum Step {
    /// Fetch the crawler's page and hand it to the crawler.
    Continue(Crawler),
    /// The search is over, with this result.
    Finished(Result<Vec<Torrent>, Error>),
}

/// A [`Crawler`] as contracts see it.
pub struct CrawlerView {
    pub page: u32,
    pub last_page: u32,
    pub found: Seq<TorrentView>,
}

/// A [`Step`] as contracts see it.
pub enum StepView {
    Continue(CrawlerView),
    Finished(Result<Seq<TorrentView>, Error>),
}

impl View for Crawler {
    type V = CrawlerView;

    closed spec fn view(&self) -> CrawlerView {
        CrawlerView {
            page: self.page,
            last_page: self.last_page,
            found: torrent_views(self.found@),
        }
    }
}

impl View for Step {
    type V = StepView;

    open spec fn view(&self) -> StepView {
        match *self {
            Step::Continue(crawler) => StepView::Continue(crawler@),
            Step::Finished(result) => StepView::Finished(outcome_view(result)),
        }
    }
}

/// How the search `c` goes on after a page with the given outcome. An error
/// ends the search with that error, and what was found is dropped. A page
/// without records ends it with what was found. A page with records adds
/// them, after those found before, and asks for the next page; where there
/// is no next page to ask for, the search ends as exhausted.
pub open spec fn after_page(c: CrawlerView, outcome: Result<Seq<TorrentView>, Error>) -> StepView {
    match outcome {
        Err(e) => StepView::Finished(Err(e)),
        Ok(records) => if records.len() == 0 {
            StepView::Finished(Ok(c.found))
        } else if c.page >= c.last_page {
            StepView::Finished(Err(Error::Exhausted))
        } else {
            StepView::Continue(
                CrawlerView {
                    page: (c.page + 1) as u32,
                    last_page: c.last_page,
                    found: c.found + records,
                },
            )
        },
    }
}

/// How the search `c` goes on after a fetch. A failed fetch ends it with a
/// request error, a body too long to be parsed with a scraping error. After
/// any other body it goes on as after the page that the body parses into.
pub open spec fn after_fetch(c: CrawlerView, fetched: Fetched) -> StepView {
    match fetched {
        Fetched::Failed => StepView::Finished(Err(Error::Request)),
        Fetched::Body(bytes) => if parsable(bytes@) {
            after_page(c, page_outcome(html_tree(bytes@)))
        } else {
            StepView::Finished(Err(Error::Scraping))
        },
    }
}

/// How the search `c` goes on after pages with the given outcomes, handed
/// to it in turn. Once the search is over, no further outcome is looked at.
pub open spec fn after_pages(
    c: CrawlerView,
    outcomes: Seq<Result<Seq<TorrentView>, Error>>,
) -> StepView
    decreases outcomes.len(),
{
    if outcomes.len() == 0 {
        StepView::Continue(c)
    } else {
        match after_page(c, outcomes[0]) {
            StepView::Continue(next) => after_pages(next, outcomes.drop_first()),
            StepView::Finished(result) => StepView::Finished(result),
        }
    }
}

/// The records of several pages, page after page.
pub open spec fn joined(pages: Seq<Seq<TorrentView>>) -> Seq<TorrentView>
    decreases pages.len(),
{
    if pages.len() == 0 {
        Seq::empty()
    } else {
        pages[0] + joined(pages.drop_first())
    }
}

/// The outcomes of pages that were read without error.
pub open spec fn read(pages: Seq<Seq<TorrentView>>) -> Seq<Result<Seq<TorrentView>, Error>> {
    pages.map_values(|records: Seq<TorrentView>| Ok::<Seq<TorrentView>, Error>(records))
}

/// Pages with records, none of them past the last page, keep a search going:
/// after them it asks for the page that follows, and has found their
/// records, in the order of the pages.
pub proof fn lemma_pages_with_records(c: CrawlerView, pages: Seq<Seq<TorrentView>>)
    requires
        forall|i: int| 0 <= i < pages.len() ==> (#[trigger] pages[i]).len() > 0,
        c.page + pages.len() <= c.last_page,
    ensures
        after_pages(c, read(pages)) == StepView::Continue(
            CrawlerView {
                page: (c.page + pages.len()) as u32,
                last_page: c.last_page,
                found: c.found + joined(pages),
            },
        ),
    decreases pages.len(),
{
    if pages.len() == 0 {
        assert(c.found + joined(pages) =~= c.found);
    } else {
        let next = CrawlerView {
            page: (c.page + 1) as u32,
            last_page: c.last_page,
            found: c.found + pages[0],
        };
        assert(read(pages)[0] == Ok::<Seq<TorrentView>, Error>(pages[0]));
        assert(read(pages).drop_first() =~= read(pages.drop_first()));
        lemma_pages_with_records(next, pages.drop_first());
        assert(next.found + joined(pages.drop_first()) =~= c.found + joined(pages));
    }
}

/// What is handed to a search after it is over does not matter.
pub proof fn lemma_over_is_over(
    c: CrawlerView,
    before: Seq<Result<Seq<TorrentView>, Error>>,
    after: Seq<Result<Seq<TorrentView>, Error>>,
)
    requires
        after_pages(c, before) is Finished,
    ensures
        after_pages(c, before + after) == after_pages(c, before),
    decreases before.len(),
{
    if before.len() > 0 {
        assert((before + after)[0] == before[0]);
        assert((before + after).drop_first() =~= before.drop_first() + after);
        match after_page(c, before[0]) {
            StepView::Continue(next) => {
                lemma_over_is_over(next, before.drop_first(), after);
            },
            StepView::Finished(_) => {},
        }
    }
}

/// A search goes on as long as what is handed to it keeps it going.
pub proof fn lemma_after_more_pages(
    c: CrawlerView,
    before: Seq<Result<Seq<TorrentView>, Error>>,
    after: Seq<Result<Seq<TorrentView>, Error>>,
)
    requires
        after_pages(c, before) is Continue,
    ensures
        after_pages(c, before + after) == after_pages(after_pages(c, before)->Continue_0, after),
    decreases before.len(),
{
    if before.len() == 0 {
        assert(before + after =~= after);
    } else {
        assert((before + after)[0] == before[0]);
        assert((before + after).drop_first() =~= before.drop_first() + after);
        match after_page(c, before[0]) {
            StepView::Continue(next) => {
                lemma_after_more_pages(next, before.drop_first(), after);
            },
            StepView::Finished(_) => {},
        }
    }
}

/// A search ends at the first page without records: it returns the records
/// of the pages before that one, in the order of the pages, and looks at no
/// page after it.
pub proof fn lemma_search_ends_at_first_empty_page(
    c: CrawlerView,
    pages: Seq<Seq<TorrentView>>,
    rest: Seq<Result<Seq<TorrentView>, Error>>,
)
    requires
        forall|i: int| 0 <= i < pages.len() ==> (#[trigger] pages[i]).len() > 0,
        c.page + pages.len() <= c.last_page,
    ensures
        after_pages(c, read(pages) + seq![Ok::<Seq<TorrentView>, Error>(Seq::empty())] + rest)
            == StepView::Finished(Ok(c.found + joined(pages))),
{
    let empty = seq![Ok::<Seq<TorrentView>, Error>(Seq::empty())];
    lemma_pages_with_records(c, pages);
    lemma_after_more_pages(c, read(pages), empty);
    let reached = after_pages(c, read(pages))->Continue_0;
    assert(empty.drop_first() =~= Seq::empty());
    assert(after_pages(reached, empty) == StepView::Finished(Ok(c.found + joined(pages))));
    lemma_over_is_over(c, read(pages) + empty, rest);
}

/// An error ends a search with that error, whatever was found before it,
/// and no page after it is looked at.
pub proof fn lemma_search_ends_at_first_error(
    c: CrawlerView,
    pages: Seq<Seq<TorrentView>>,
    error: Error,
    rest: Seq<Result<Seq<TorrentView>, Error>>,
)
    requires
        forall|i: int| 0 <= i < pages.len() ==> (#[trigger] pages[i]).len() > 0,
        c.page + pages.len() <= c.last_page,
    ensures
        after_pages(c, read(pages) + seq![Err::<Seq<TorrentView>, Error>(error)] + rest)
            == StepView::Finished(Err::<Seq<TorrentView>, Error>(error)),
{
    let failed = seq![Err::<Seq<TorrentView>, Error>(error)];
    lemma_pages_with_records(c, pages);
    lemma_after_more_pages(c, read(pages), failed);
    let reached = after_pages(c, read(pages))->Continue_0;
    assert(failed.drop_first() =~= Seq::empty());
    assert(after_pages(reached, failed) == StepView::Finished(
        Err::<Seq<TorrentView>, Error>(error),
    ));
    lemma_over_is_over(c, read(pages) + failed, rest);
}

impl Crawler {
    /// A search that has read nothing yet. It begins with page 0 and fetches
    /// no page after `last_page`.
    pub fn new(last_page: u32) -> (c: Crawler)
        ensures
            c@ == (CrawlerView { page: 0, last_page, found: Seq::empty() }),
    {
        let c = Crawler { page: 0, last_page, found: Vec::new() };
        assert(torrent_views(c.found@) =~= Seq::<TorrentView>::empty());
        c
    }

    /// The page to fetch next, counted from 0.
    pub fn page(&self) -> (n: u32)
        ensures
            n == self@.page,
    {
        self.page
    }

    /// The number of torrents found so far.
    pub fn found(&self) -> (n: usize)
        ensures
            n == self@.found.len(),
    {
        self.found.len()
    }

    /// Goes on with the outcome of the crawler's page.
    pub fn absorb(self, outcome: Result<Vec<Torrent>, Error>) -> (r: Step)
        ensures
            r@ == after_page(self@, outcome_view(outcome)),
    {
        match outcome {
            Err(e) => Step::Finished(Err(e)),
            Ok(mut records) => {
                if records.len() == 0 {
                    Step::Finished(Ok(self.found))
                } else if self.page >= self.last_page {
                    Step::Finished(Err(Error::Exhausted))
                } else {
                    let mut found = self.found;
                    let ghost before = found@;
                    let ghost added = records@;
                    found.append(&mut records);
                    assert(torrent_views(before + added) =~= torrent_views(before) + torrent_views(
                        added,
                    ));
                    Step::Continue(
                        Crawler { page: self.page + 1, last_page: self.last_page, found },
                    )
                }
            },
        }
    }

    /// Goes on with the crawler's page, parsed.
    pub fn read_page(self, doc: &Document) -> (r: Step)
        ensures
            r@ == after_page(self@, page_outcome(doc.tree())),
    {
        let outcome = torrent_search_page(doc);
        self.absorb(outcome)
    }

    /// Goes on with what came of fetching the crawler's page. A failed fetch
    /// ends the search with a request error. A body too long to be parsed
    /// ends it with a scraping error. Any other body is parsed, and the search
    /// goes on as [`Crawler::read_page`] says for the tree that the parser
    /// builds from the body.
    pub fn receive(self, fetched: Fetched) -> (r: Step)
        ensures
            r@ == after_fetch(self@, fetched),
    {
        match fetched {
            Fetched::Failed => Step::Finished(Err(Error::Request)),
            Fetched::Body(bytes) => match parse_document(bytes.as_slice()) {
                Some(doc) => self.read_page(&doc),
                None => Step::Finished(Err(Error::Scraping)),
            },
        }
    }
}

} // verus!
