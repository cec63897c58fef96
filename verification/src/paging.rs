//! Collecting the pages of a listing: what to do after each page.

use crate::team::TeamTreeNode;
use vstd::prelude::*;

verus! {

/// What came back for the page that was asked for.
#[derive(Debug)]
pub enum PageEvent {
    /// The page arrived, with the records on it and the word of the source on
    /// whether another page follows.
    Fetched { items: Vec<TeamTreeNode>, has_next: bool },
    /// The source failed.
    Failed,
}

/// What the caller does next.
#[derive(Debug, Clone, Copy, PartialEq, Eq)]
pub enum PagerAction {
    /// Ask for the page that the pager now names.
    FetchNext,
    /// Every page is in: build the hierarchy over the records.
    Build,
    /// Give up: nothing is built and nothing is printed.
    Abort,
}

/// The state of a listing that is fetched page by page.
#[derive(Debug)]
pub struct TeamPager {
    /// The page to ask for; the first page is page 1.
    pub page_number: u32,
    /// The records of the pages that have arrived, in order.
    pub records: Vec<TeamTreeNode>,
}

impl TeamPager {
    /// A listing of which nothing has arrived yet.
    pub fn new() -> (pager: TeamPager)
        ensures
            pager.page_number == 1,
            pager.records@ == Seq::<TeamTreeNode>::empty(),
    {
        TeamPager { page_number: 1, records: Vec::new() }
    }

    /// Takes in what came back for page `page_number`. The records of a page
    /// are added after those already held; while the source announces another
    /// page, that page is asked for next. A failure of the source leaves the
    /// state as it is.
    pub fn advance(&mut self, event: PageEvent) -> (action: PagerAction)
        requires
            (event matches PageEvent::Fetched { has_next, .. } && has_next) ==> old(
                self,
            ).page_number < u32::MAX,
        ensures
            match event {
                PageEvent::Fetched { items, has_next } => {
                    &&& final(self).records@ == old(self).records@ + items@
                    &&& has_next ==> action == PagerAction::FetchNext && final(self).page_number
                        == old(self).page_number + 1
                    &&& !has_next ==> action == PagerAction::Build && final(self).page_number
                        == old(self).page_number
                },
                PageEvent::Failed => {
                    &&& action == PagerAction::Abort
                    &&& final(self).records@ == old(self).records@
                    &&& final(self).page_number == old(self).page_number
                },
            },
    {
        match event {
            PageEvent::Fetched { items, has_next } => {
                let mut items = items;
                self.records.append(&mut items);
                if has_next {
                    self.page_number = self.page_number + 1;
                    PagerAction::FetchNext
                } else {
                    PagerAction::Build
                }
            },
            PageEvent::Failed => PagerAction::Abort,
        }
    }
}

} // verus!
