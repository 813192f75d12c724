//! Constraints on mails.

use vstd::prelude::*;
use vstd::utf8::is_ascii_chars;

use crate::clock::{DateRange, Stamp};
use crate::outside::lowercase;
use crate::parse::{ascii_lowered, is_possible, parse_date_range, range_spec, reads_as, DateError};
use crate::text::{chars_of, contains, contains_text, opt_text, string_of, trim, trimmed};

verus! {

/// Substring constraint on a subject or an author. Without a needle every text
/// matches.
#[derive(Debug)]
pub struct SubjectFilter {
    pub needle: Option<String>,
}

/// The needle that an answer of the user sets: the answer without white space
/// around it, or none where nothing is left.
pub open spec fn needle_of(answer: Seq<char>) -> Option<Seq<char>> {
    if trim(answer).len() == 0 {
        None
    } else {
        Some(trim(answer))
    }
}

/// A text matches a needle, whatever the case of its letters.
pub open spec fn text_matches(needle: Option<Seq<char>>, text: Seq<char>) -> bool {
    match needle {
        None => true,
        Some(n) => contains_text(lowercase(text), lowercase(n)),
    }
}

/// How a needle is shown.
pub open spec fn needle_label(needle: Option<Seq<char>>) -> Seq<char> {
    match needle {
        None => "(none)"@,
        Some(n) => n,
    }
}

impl Clone for SubjectFilter {
    fn clone(&self) -> (r: Self)
        ensures
            r == *self,
    {
        match &self.needle {
            Some(n) => SubjectFilter { needle: Some(n.clone()) },
            None => SubjectFilter { needle: None },
        }
    }
}

impl Default for SubjectFilter {
    fn default() -> (r: Self)
        ensures
            r.needle is None,
    {
        SubjectFilter { needle: None }
    }
}

impl SubjectFilter {
    /// The needle as text.
    pub open spec fn sought(self) -> Option<Seq<char>> {
        opt_text(self.needle)
    }

    /// No constraint.
    pub fn new() -> (r: Self)
        ensures
            r.needle is None,
    {
        SubjectFilter { needle: None }
    }

    /// Replaces the needle from raw user text. Empty text clears the filter.
    pub fn set(&mut self, text: &str)
        ensures
            final(self).sought() == needle_of(text@),
    {
        let trimmed = trimmed(&chars_of(text));
        self.needle = if trimmed.len() == 0 { None } else { Some(string_of(&trimmed)) };
    }

    pub fn is_active(&self) -> (r: bool)
        ensures
            r == (self.needle is Some),
    {
        self.needle.is_some()
    }

    /// Whether the text holds the needle, whatever the case of its letters;
    /// where both are ASCII, that is the case of ASCII letters.
    pub fn matches(&self, subject: &str) -> (r: bool)
        ensures
            r == text_matches(self.sought(), subject@),
            self.needle matches Some(n) ==> is_ascii_chars(subject@) && is_ascii_chars(n@) ==> r
                == contains_text(ascii_lowered(subject@), ascii_lowered(n@)),
    {
        match &self.needle {
            None => true,
            Some(n) => {
                let hay = chars_of(subject.to_lowercase().as_str());
                let needle = chars_of(n.as_str().to_lowercase().as_str());
                contains(&hay, &needle)
            },
        }
    }

    /// How the constraint is shown.
    pub fn label(&self) -> (r: String)
        ensures
            r@ == needle_label(self.sought()),
    {
        match &self.needle {
            None => "(none)".to_string(),
            Some(n) => n.clone(),
        }
    }
}

/// Date-range constraint. Without a range every mail matches, whatever its
/// `Date` header.
#[derive(Clone, Copy, Debug, PartialEq, Eq, Structural)]
pub struct DateFilter {
    pub date_range: Option<DateRange>,
}

/// A date satisfies a range. A mail without a date satisfies none.
pub open spec fn date_matches(range: Option<DateRange>, date: Option<Stamp>) -> bool {
    match (range, date) {
        (None, _) => true,
        (Some(_), None) => false,
        (Some(r), Some(d)) => r.holds(d.moment),
    }
}

impl Default for DateFilter {
    fn default() -> (r: Self)
        ensures
            r.date_range is None,
    {
        DateFilter { date_range: None }
    }
}

impl DateFilter {
    /// No constraint.
    pub fn new() -> (r: Self)
        ensures
            r.date_range is None,
    {
        DateFilter { date_range: None }
    }

    /// Takes the range that was read, or leaves the filter as it is where none
    /// was.
    pub fn adopt(&mut self, read: Result<DateRange, DateError>) -> (r: Result<(), DateError>)
        ensures
            match read {
                Ok(range) => r == Ok::<(), DateError>(()) && final(self).date_range == Some(range),
                Err(e) => r == Err::<(), DateError>(e) && *final(self) == *old(self),
            },
    {
        match read {
            Ok(range) => {
                self.date_range = Some(range);
                Ok(())
            },
            Err(e) => Err(e),
        }
    }

    /// Replaces the range from raw user text. Accepts:
    ///   - `today`
    ///   - `yesterday`
    ///   - `YYYY/MM/DD HH:MM to YYYY/MM/DD HH:MM`
    ///
    /// Empty text clears the filter; malformed text returns an error and
    /// leaves the existing filter unchanged.
    pub fn set(&mut self, text: &str) -> (r: Result<(), DateError>)
        ensures
            trim(text@).len() == 0 ==> r == Ok::<(), DateError>(())
                && final(self).date_range is None,
            trim(text@).len() > 0 ==> {
                &&& r == Err::<(), DateError>(DateError::Malformed) <==> range_spec(
                    trim(text@),
                ) is None
                &&& range_spec(trim(text@)) matches Some(range) ==> !is_possible(range) ==> r
                    == Err::<(), DateError>(DateError::NoSuchTime)
                &&& r is Ok ==> (final(self).date_range matches Some(read) && reads_as(
                    trim(text@),
                    read,
                ))
                &&& r is Err ==> *final(self) == *old(self)
            },
    {
        let trimmed = trimmed(&chars_of(text));
        if trimmed.len() == 0 {
            self.date_range = None;
            return Ok(());
        }
        let read = parse_date_range(string_of(&trimmed).as_str());
        self.adopt(read)
    }

    pub fn is_active(&self) -> (r: bool)
        ensures
            r == (self.date_range is Some),
    {
        self.date_range.is_some()
    }

    /// Whether a mail with this date is within the range.
    pub fn matches(&self, date: Option<&Stamp>) -> (r: bool)
        ensures
            r == date_matches(
                self.date_range,
                match date {
                    Some(d) => Some(*d),
                    None => None,
                },
            ),
    {
        match self.date_range {
            None => true,
            Some(range) => match date {
                None => false,
                Some(d) => range.contains(&d.moment),
            },
        }
    }

    /// How the constraint is shown. The ends of a range are shown on the local
    /// clock of the machine.
    pub fn label(&self) -> (r: String)
        ensures
            self.date_range is None ==> r@ == "(none)"@,
            self.date_range matches Some(range) ==> range.shown_as(r@),
    {
        match self.date_range {
            None => "(none)".to_string(),
            Some(range) => range.label(),
        }
    }
}

/// An answer of nothing but white space clears a substring constraint, and any
/// other answer sets it to a needle that has no white space around it.
pub proof fn law_blank_answers_clear(answer: Seq<char>)
    ensures
        needle_of(answer) is None <==> forall|i: int|
            0 <= i < answer.len() ==> crate::text::is_white(#[trigger] answer[i]),
        needle_of(answer) matches Some(n) ==> n.len() > 0 && !crate::text::is_white(n[0])
            && !crate::text::is_white(n.last()) && needle_of(n) == Some(n),
{
    crate::text::lemma_trim(answer);
    if trim(answer).len() > 0 {
        crate::text::lemma_trimmed_stays(trim(answer));
    }
}

} // verus!
