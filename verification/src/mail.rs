//! A mail of the archive, and pages of them.

use vstd::prelude::*;

use crate::clock::{date_text, show_date, Stamp};

verus! {

/// A mail as the archive gives it: what its header says, and where it is kept.
#[derive(Debug)]
pub struct Mail {
    pub title: String,
    pub author: String,
    pub date: Option<Stamp>,
    pub epoch: u32,
    pub commit: String,
}

impl Clone for Mail {
    fn clone(&self) -> (r: Self)
        ensures
            r == *self,
    {
        Mail {
            title: self.title.clone(),
            author: self.author.clone(),
            date: self.date,
            epoch: self.epoch,
            commit: self.commit.clone(),
        }
    }
}

impl Mail {
    /// How the date of the mail is shown: on the clock of its sender, or as a
    /// dash where it has none.
    pub fn date_str(&self) -> (r: String)
        ensures
            r@ == date_text(self.date),
    {
        show_date(&self.date)
    }
}

/// A single screen of mails. Renders as one page.
#[derive(Debug)]
pub struct Page {
    pub mails: Vec<Mail>,
    pub page_idx: usize,
}

impl Default for Page {
    fn default() -> (r: Self)
        ensures
            r.mails@.len() == 0,
            r.page_idx == 0,
    {
        Page { mails: Vec::new(), page_idx: 0 }
    }
}

/// Outcome of asking a mail source whether a given page can be served yet.
#[derive(Debug)]
pub enum SourceStatus {
    /// The page is ready.
    Ready(Page),
    /// Still working; show this loading message.
    Loading(String),
    /// Progress is blocked until this epoch is cloned.
    NeedsClone(u32),
    /// No more mails to show.
    Exhausted,
}

impl Page {
    pub fn new(mails: Vec<Mail>, page_idx: usize) -> (r: Self)
        ensures
            r.mails == mails,
            r.page_idx == page_idx,
    {
        Page { mails, page_idx }
    }

    pub fn is_empty(&self) -> (r: bool)
        ensures
            r == (self.mails@.len() == 0),
    {
        self.mails.len() == 0
    }

    pub fn len(&self) -> (r: usize)
        ensures
            r == self.mails@.len(),
    {
        self.mails.len()
    }
}

} // verus!
