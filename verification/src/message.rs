//! A mail as the reader's lists hold it.

use vstd::prelude::*;

use crate::clock::{date_text, show_date, Stamp};

verus! {

/// Which patch of how many a mail is: the `2/7` of `[PATCH v3 2/7]`, where
/// number 0 is the cover letter.
#[derive(Clone, Copy, Debug, PartialEq, Eq, Structural)]
pub struct PatchTag {
    pub version: u32,
    pub number: u32,
    pub total: u32,
}

/// The patch series that a mail belongs to. Two mails are of one series when
/// their tags are equal: `id` numbers the series that were met, and `total` is
/// how many patches the series says it has.
#[derive(Clone, Copy, Debug, PartialEq, Eq, Structural)]
pub struct SeriesTag {
    pub id: usize,
    pub total: u32,
}

/// What the lists know of one mail. `id` is the number under which the mail
/// itself is kept.
#[derive(Debug)]
pub struct Message {
    pub id: usize,
    pub subject: String,
    pub author: String,
    pub date: Option<Stamp>,
    pub patch_tag: Option<PatchTag>,
    pub series: Option<SeriesTag>,
}

impl Clone for Message {
    fn clone(&self) -> (r: Self)
        ensures
            r == *self,
    {
        Message {
            id: self.id,
            subject: self.subject.clone(),
            author: self.author.clone(),
            date: self.date,
            patch_tag: self.patch_tag,
            series: self.series,
        }
    }
}

impl Default for Message {
    fn default() -> (r: Self)
        ensures
            r.id == 0,
            r.subject@ == Seq::<char>::empty(),
            r.author@ == Seq::<char>::empty(),
            r.date is None,
            r.patch_tag is None,
            r.series is None,
    {
        Message {
            id: 0,
            subject: String::new(),
            author: String::new(),
            date: None,
            patch_tag: None,
            series: None,
        }
    }
}

impl Message {
    /// The place of a mail in its series; a mail without a patch tag counts
    /// as a cover letter.
    pub open spec fn number(self) -> u32 {
        match self.patch_tag {
            Some(t) => t.number,
            None => 0,
        }
    }

    /// Whether the mail is patch `n` of the series `tag`.
    pub open spec fn is_patch(self, tag: SeriesTag, n: u32) -> bool {
        &&& self.series == Some(tag)
        &&& self.patch_tag matches Some(t)
        &&& t.number == n
    }

    /// How the date of the mail is shown.
    pub fn date_str(&self) -> (r: String)
        ensures
            r@ == date_text(self.date),
    {
        show_date(&self.date)
    }

    /// The place of the mail in its series.
    pub fn place(&self) -> (r: u32)
        ensures
            r == self.number(),
    {
        match self.patch_tag {
            Some(t) => t.number,
            None => 0,
        }
    }
}

} // verus!
