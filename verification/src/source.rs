//! Pages of mails, and what a source answers when it is asked for one.

use vstd::prelude::*;

use crate::message::Message;
use crate::series::{group_series, grouped_indent, grouped_mails, law_grouping_is_a_permutation};

verus! {

/// One page of mails, with each patch series pulled together into a block:
/// cover letter first, its patches indented under it.
///
/// A page is identified by where it starts in the stream, not by a page
/// number, because pages are not all the same length: one that would cut a
/// series in half keeps loading until the whole series fits.
#[derive(Debug)]
pub struct Page {
    pub mails: Vec<Message>,
    /// Per row: this mail sits under a series head and is drawn indented.
    /// As long as `mails` on every page that the constructors make.
    pub indent: Vec<bool>,
    pub offset: usize,
}

impl Page {
    /// The indent flags of the rows.
    pub open spec fn flags(self) -> Seq<bool> {
        self.indent@
    }

    /// One flag per row.
    pub open spec fn wf(self) -> bool {
        self.flags().len() == self.mails.len()
    }

    /// A page of the unfiltered stream: patch series pulled into blocks and
    /// marked for indentation.
    pub fn grouped(mails: Vec<Message>, offset: usize) -> (r: Self)
        ensures
            r.wf(),
            r.mails@ == grouped_mails(mails@),
            r.flags() == grouped_indent(mails@),
            r.offset == offset,
    {
        proof {
            law_grouping_is_a_permutation(mails@);
        }
        let (mails, indent) = group_series(&mails);
        Page { mails, indent, offset }
    }

    /// A page in stream order, nothing grouped. Filtered results are an
    /// arbitrary subset of the archive, so there is nothing to hang an indent
    /// off.
    pub fn flat(mails: Vec<Message>, offset: usize) -> (r: Self)
        ensures
            r.wf(),
            r.mails == mails,
            r.flags() == Seq::new(mails@.len(), |i: int| false),
            r.offset == offset,
    {
        let mut indent: Vec<bool> = Vec::new();
        let n = mails.len();
        while indent.len() < n
            invariant
                n == mails.len(),
                indent.len() <= n,
                indent@ == Seq::new(indent@.len(), |i: int| false),
            decreases n - indent.len(),
        {
            indent.push(false);
        }
        Page { mails, indent, offset }
    }

    pub fn is_empty(&self) -> (r: bool)
        ensures
            r == (self.mails@.len() == 0),
    {
        self.mails.len() == 0
    }

    pub fn len(&self) -> (r: usize)
        ensures
            r == self.mails@.len(),
    {
        self.mails.len()
    }

    /// Whether row `i` sits under a series head; false past the page's end.
    pub fn indented(&self, i: usize) -> (r: bool)
        ensures
            r == (i < self.flags().len() && self.flags()[i as int]),
    {
        i < self.indent.len() && self.indent[i]
    }

    /// One indent flag per row of `mails`.
    pub fn indent(&self) -> (r: &Vec<bool>)
        ensures
            *r == self.indent,
    {
        &self.indent
    }
}

impl Default for Page {
    fn default() -> (r: Self)
        ensures
            r.wf(),
            r.mails@ == Seq::<Message>::empty(),
            r.offset == 0,
    {
        Page { mails: Vec::new(), indent: Vec::new(), offset: 0 }
    }
}

/// What a source says of a page.
#[derive(Debug)]
pub enum SourceStatus {
    /// The page is ready.
    Ready(Page),
    /// Still working; show this loading message.
    Loading(String),
    /// Progress is blocked until this epoch is cloned.
    NeedsClone(u32),
    /// No more mails to show.
    Exhausted,
}

/// Outcome of asking a source for a page.
#[derive(Debug)]
pub enum PageState {
    /// The page is ready.
    Ready(Page),
    /// Still working; show this message and ask again later.
    Pending(String),
    /// No page to serve: the stream ran out, a needed clone was declined, or
    /// cloning failed.
    End,
}

} // verus!
