//! The subject, author and date constraints as one value.

use vstd::prelude::*;

use crate::clock::DateRange;
use crate::filter::{date_matches, needle_label, needle_of, DateFilter, SubjectFilter};
use crate::message::Message;
use crate::parse::{is_possible, range_spec, reads_as, DateError};
use crate::text::{decimal, push_decimal, trim};

verus! {

/// One of the three filter constraints, for driving the shared prompt flow.
#[derive(Clone, Copy, Debug, PartialEq, Eq, Structural)]
pub enum Constraint {
    Subject,
    Author,
    Date,
}

/// The subject, author and date constraints as one value. What the user is
/// prompted with, what is pushed down into `git log`, what runs as a predicate
/// on the survivors, and how a scan reports progress all come from here.
#[derive(Debug)]
pub struct FilterSet {
    pub subject: SubjectFilter,
    pub author: SubjectFilter,
    pub date: DateFilter,
}

/// `text` shows a date constraint: its range on the local clock, or that there
/// is none.
pub open spec fn shows_date(range: Option<DateRange>, text: Seq<char>) -> bool {
    match range {
        None => text == "(none)"@,
        Some(r) => r.shown_as(text),
    }
}

/// The question that asks for a constraint, with its current value.
pub open spec fn question(which: Constraint, value: Seq<char>) -> Seq<char> {
    (match which {
        Constraint::Subject => "Filter (subject substring, empty=clear) ["@,
        Constraint::Author => "Filter (author substring, empty=clear) ["@,
        Constraint::Date => "Filter date (today | yesterday | YYYY/MM/DD HH:MM to YYYY/MM/DD HH:MM, empty=clear) ["@,
    }) + value + "]: "@
}

/// The question that asks for a constraint, with its current value.
pub fn ask_for(which: Constraint, value: &str) -> (r: String)
    ensures
        r@ == question(which, value@),
{
    let mut out = match which {
        Constraint::Subject => "Filter (subject substring, empty=clear) [".to_string(),
        Constraint::Author => "Filter (author substring, empty=clear) [".to_string(),
        Constraint::Date => "Filter date (today | yesterday | YYYY/MM/DD HH:MM to YYYY/MM/DD HH:MM, empty=clear) [".to_string(),
    };
    out.append(value);
    out.append("]: ");
    assert(out@ =~= question(which, value@));
    out
}

/// The line that tells how far a scan is.
pub open spec fn scan_line(
    subject: Seq<char>,
    author: Seq<char>,
    date: Seq<char>,
    count: nat,
) -> Seq<char> {
    "Filtering subject='"@ + subject + "' author='"@ + author + "' date='"@ + date + "'… ("@
        + decimal(count) + (if count == 1 {
        " match so far)"@
    } else {
        " matches so far)"@
    })
}

/// The line that tells how far a scan is.
pub fn tell_scan(subject: &str, author: &str, date: &str, count: usize) -> (r: String)
    ensures
        r@ == scan_line(subject@, author@, date@, count as nat),
{
    let mut out = String::new();
    out.append("Filtering subject='");
    out.append(subject);
    out.append("' author='");
    out.append(author);
    out.append("' date='");
    out.append(date);
    out.append("'… (");
    push_decimal(&mut out, count as u64);
    if count == 1 {
        out.append(" match so far)");
    } else {
        out.append(" matches so far)");
    }
    assert(out@ =~= scan_line(subject@, author@, date@, count as nat));
    out
}

/// Why a date constraint was refused.
pub open spec fn refusal(error: DateError) -> Seq<char> {
    "Invalid date filter: "@ + error.reason()
}

impl Clone for FilterSet {
    fn clone(&self) -> (r: Self)
        ensures
            r == *self,
    {
        FilterSet { subject: self.subject.clone(), author: self.author.clone(), date: self.date }
    }
}

impl FilterSet {
    /// No constraint.
    pub fn new() -> (r: Self)
        ensures
            !r.active(),
    {
        FilterSet {
            subject: SubjectFilter::new(),
            author: SubjectFilter::new(),
            date: DateFilter::new(),
        }
    }

    /// Some constraint is set.
    pub open spec fn active(self) -> bool {
        self.subject.needle is Some || self.author.needle is Some || self.date.date_range is Some
    }

    /// Whether any constraint is set.
    pub fn is_active(&self) -> (r: bool)
        ensures
            r == self.active(),
    {
        self.subject.is_active() || self.author.is_active() || self.date.is_active()
    }

    /// `text` shows the constraint `which`.
    pub open spec fn shows(self, which: Constraint, text: Seq<char>) -> bool {
        match which {
            Constraint::Subject => text == needle_label(self.subject.sought()),
            Constraint::Author => text == needle_label(self.author.sought()),
            Constraint::Date => shows_date(self.date.date_range, text),
        }
    }

    /// The prompt label for editing `which`, current value included. The ends
    /// of a date range are shown on the local clock of the machine.
    pub fn prompt_label(&self, which: Constraint) -> (r: String)
        ensures
            exists|value: Seq<char>| self.shows(which, value) && r@ == question(which, value),
            which == Constraint::Subject ==> r@ == question(
                which,
                needle_label(self.subject.sought()),
            ),
            which == Constraint::Author ==> r@ == question(
                which,
                needle_label(self.author.sought()),
            ),
    {
        let value = match which {
            Constraint::Subject => self.subject.label(),
            Constraint::Author => self.author.label(),
            Constraint::Date => self.date.label(),
        };
        assert(self.shows(which, value@));
        ask_for(which, value.as_str())
    }

    /// `after` are the constraints once the user answered for `which`, and
    /// `refused` is the message where the answer was refused. A substring is
    /// never refused, and a date only where it is not written as one or its
    /// time is none of the local clock; a refusal changes nothing.
    pub open spec fn adopts(
        self,
        which: Constraint,
        answer: Seq<char>,
        after: FilterSet,
        refused: Option<Seq<char>>,
    ) -> bool {
        match which {
            Constraint::Subject => {
                &&& refused is None
                &&& after.subject.sought() == needle_of(answer)
                &&& after == (FilterSet { subject: after.subject, ..self })
            },
            Constraint::Author => {
                &&& refused is None
                &&& after.author.sought() == needle_of(answer)
                &&& after == (FilterSet { author: after.author, ..self })
            },
            Constraint::Date => {
                let text = trim(answer);
                &&& text.len() == 0 ==> refused is None && after.date.date_range is None
                &&& text.len() > 0 && range_spec(text) is None ==> refused == Some(
                    refusal(DateError::Malformed),
                )
                &&& text.len() > 0 ==> (range_spec(text) matches Some(range) ==> !is_possible(
                    range,
                ) ==> refused == Some(refusal(DateError::NoSuchTime)))
                &&& text.len() > 0 && refused is None ==> (after.date.date_range matches Some(read)
                    && reads_as(text, read))
                &&& refused matches Some(message) ==> {
                    &&& after == self
                    &&& message == refusal(DateError::Malformed) || message == refusal(
                        DateError::NoSuchTime,
                    )
                }
                &&& after == (FilterSet { date: after.date, ..self })
            },
        }
    }

    /// Set `which` from the user's answer (empty clears it). Only the date can
    /// fail: it is the only constraint with a syntax to get wrong. The message
    /// says why it failed. Which points in time a date answer stands for depends
    /// on the date and the time zone of the machine, within the day that a clock
    /// can be off UTC.
    pub fn set(&mut self, which: Constraint, answer: &str) -> (r: Result<(), String>)
        ensures
            old(self).adopts(
                which,
                answer@,
                *final(self),
                match r {
                    Ok(()) => None,
                    Err(message) => Some(message@),
                },
            ),
    {
        match which {
            Constraint::Subject => {
                self.subject.set(answer);
                Ok(())
            },
            Constraint::Author => {
                self.author.set(answer);
                Ok(())
            },
            Constraint::Date => match self.date.set(answer) {
                Ok(()) => Ok(()),
                Err(e) => {
                    let mut message = "Invalid date filter: ".to_string();
                    message.append(e.message());
                    Err(message)
                },
            },
        }
    }

    /// The constraints as header-ready display strings: subject, author, date.
    pub fn labels(&self) -> (r: [String; 3])
        ensures
            self.shows(Constraint::Subject, r@[0]@),
            self.shows(Constraint::Author, r@[1]@),
            self.shows(Constraint::Date, r@[2]@),
    {
        [self.subject.label(), self.author.label(), self.date.label()]
    }

    /// The needles `git log` narrows an epoch by: (subject, author).
    pub fn search_args(&self) -> (r: (Option<&str>, Option<&str>))
        ensures
            match r.0 {
                Some(n) => self.subject.sought() == Some(n@),
                None => self.subject.sought() is None,
            },
            match r.1 {
                Some(n) => self.author.sought() == Some(n@),
                None => self.author.sought() is None,
            },
    {
        let subject = match &self.subject.needle {
            Some(n) => Some(n.as_str()),
            None => None,
        };
        let author = match &self.author.needle {
            Some(n) => Some(n.as_str()),
            None => None,
        };
        (subject, author)
    }

    /// The mail satisfies what the search of the commits cannot narrow.
    pub open spec fn admits(self, mail: Message) -> bool {
        date_matches(self.date.date_range, mail.date)
    }

    /// The predicate for what the search of the commits cannot narrow.
    pub fn matches(&self, mail: &Message) -> (r: bool)
        ensures
            r == self.admits(*mail),
    {
        match &mail.date {
            Some(d) => self.date.matches(Some(d)),
            None => self.date.matches(None),
        }
    }

    /// The loading-screen line for a scan with `count` matches so far.
    pub fn progress(&self, count: usize) -> (r: String)
        ensures
            self.reports(count as nat, r@),
    {
        let date = self.date.label();
        assert(self.shows(Constraint::Date, date@));
        tell_scan(
            self.subject.label().as_str(),
            self.author.label().as_str(),
            date.as_str(),
            count,
        )
    }

    /// `text` tells that a scan for these constraints has `count` matches.
    pub open spec fn reports(self, count: nat, text: Seq<char>) -> bool {
        exists|date: Seq<char>|
            self.shows(Constraint::Date, date) && text == scan_line(
                needle_label(self.subject.sought()),
                needle_label(self.author.sought()),
                date,
                count,
            )
    }
}

} // verus!
