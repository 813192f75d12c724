use lkml_reader::mail_source::{MailSource, PageAsk, PageReply};
use lkml_reader::message::{Message, PatchTag, SeriesTag};
use lkml_reader::source::{Page, PageState, SourceStatus};
use lkml_reader::stream::{StreamAsk, StreamReply, StreamSource};
use std::collections::HashMap;

/// An archive in memory: per epoch its mails, newest first, and whether it is
/// cloned and can be listed.
struct Archive {
    epochs: HashMap<u32, Vec<Message>>,
    cloned: Vec<u32>,
    broken: Vec<u32>,
    fetched: Vec<(u32, usize)>,
}

fn mail(epoch: u32, n: usize) -> Message {
    let mut m = Message::default();
    m.subject = format!("{epoch}/{n}");
    m
}

fn patch(id: usize, number: u32, total: u32) -> Message {
    let mut m = Message::default();
    m.subject = format!("p{number}");
    m.patch_tag = Some(PatchTag {
        version: 1,
        number,
        total,
    });
    m.series = Some(SeriesTag { id, total });
    m
}

impl Archive {
    fn new(sizes: &[(u32, usize)], cloned: &[u32]) -> Archive {
        Archive {
            epochs: sizes
                .iter()
                .map(|&(epoch, n)| (epoch, (0..n).map(|i| mail(epoch, i)).collect()))
                .collect(),
            cloned: cloned.to_vec(),
            broken: Vec::new(),
            fetched: Vec::new(),
        }
    }

    fn reply(&mut self, ask: &StreamAsk) -> StreamReply {
        match ask {
            StreamAsk::RepoExists(epoch) => StreamReply::Repo(self.cloned.contains(epoch)),
            StreamAsk::ListCommits(epoch) => {
                if self.broken.contains(epoch) {
                    return StreamReply::Commits(None);
                }
                let n = self.epochs[epoch].len();
                StreamReply::Commits(Some((0..n).map(|i| format!("{i}")).collect()))
            }
            StreamAsk::Fetch(epoch, commits) => {
                self.fetched.push((*epoch, commits.len()));
                StreamReply::Mails(
                    commits
                        .iter()
                        .map(|c| self.epochs[epoch][c.parse::<usize>().unwrap()].clone())
                        .collect(),
                )
            }
            StreamAsk::Finished(_) => unreachable!(),
        }
    }

    fn status(&mut self, source: &mut StreamSource, offset: usize, size: usize) -> SourceStatus {
        let (mut walk, mut ask) = source.begin(offset, size);
        loop {
            if let StreamAsk::Finished(status) = ask {
                return status;
            }
            let reply = self.reply(&ask);
            ask = source.answer(&mut walk, reply);
        }
    }

    fn page(&mut self, source: &mut StreamSource, offset: usize, size: usize) -> Page {
        match self.status(source, offset, size) {
            SourceStatus::Ready(page) => page,
            other => panic!("{other:?}"),
        }
    }
}

fn subjects(page: &Page) -> Vec<String> {
    page.mails.iter().map(|m| m.subject.clone()).collect()
}

#[test]
fn pages_walk_the_epochs_newest_first() {
    let mut archive = Archive::new(&[(0, 3), (1, 2)], &[0, 1]);
    let mut source = StreamSource::new("l".to_string(), vec![0, 1]);
    assert_eq!(subjects(&archive.page(&mut source, 0, 3)), ["1/0", "1/1", "0/0"]);
    let page = archive.page(&mut source, 3, 3);
    assert_eq!(subjects(&page), ["0/1", "0/2"]);
    assert_eq!(page.offset, 3);
    assert!(matches!(archive.status(&mut source, 5, 3), SourceStatus::Exhausted));
}

#[test]
fn a_list_without_epochs_is_exhausted() {
    let mut archive = Archive::new(&[], &[]);
    let mut source = StreamSource::new("l".to_string(), Vec::new());
    assert!(matches!(archive.status(&mut source, 0, 3), SourceStatus::Exhausted));
}

#[test]
fn a_missing_epoch_is_only_asked_for_when_needed() {
    let mut archive = Archive::new(&[(0, 3), (1, 3)], &[1]);
    let mut source = StreamSource::new("l".to_string(), vec![0, 1]);
    assert_eq!(archive.page(&mut source, 0, 3).len(), 3);
    assert!(matches!(archive.status(&mut source, 2, 3), SourceStatus::NeedsClone(0)));
    archive.cloned.push(0);
    assert_eq!(subjects(&archive.page(&mut source, 2, 3)), ["1/2", "0/0", "0/1"]);
}

#[test]
fn an_epoch_that_cannot_be_listed_ends_the_page() {
    let mut archive = Archive::new(&[(0, 3), (1, 2)], &[0, 1]);
    archive.broken.push(0);
    let mut source = StreamSource::new("l".to_string(), vec![0, 1]);
    assert_eq!(subjects(&archive.page(&mut source, 0, 5)), ["1/0", "1/1"]);
    assert!(matches!(archive.status(&mut source, 2, 5), SourceStatus::Exhausted));
}

#[test]
fn a_page_grows_to_hold_the_series_it_cuts() {
    let mut archive = Archive::new(&[(0, 0)], &[0]);
    let mails = vec![
        mail(0, 0),
        patch(1, 3, 3),
        patch(1, 2, 3),
        mail(0, 1),
        patch(1, 1, 3),
        mail(0, 2),
    ];
    archive.epochs.insert(0, mails);
    let mut source = StreamSource::new("l".to_string(), vec![0]);
    let page = archive.page(&mut source, 0, 2);
    assert_eq!(subjects(&page), ["0/0", "p1", "p2", "p3", "0/1"]);
    assert_eq!(page.indent(), &vec![false, false, true, true, false]);
    // The page proper in one batch, then a look-ahead.
    assert_eq!(archive.fetched, [(0, 2), (0, 4)]);
    // The next page starts where this one ends.
    assert_eq!(subjects(&archive.page(&mut source, page.len(), 2)), ["0/2"]);
}

#[test]
fn a_chase_stops_at_a_missing_epoch() {
    let mut archive = Archive::new(&[(0, 4), (1, 0)], &[1]);
    archive.epochs.insert(1, vec![mail(1, 0), patch(1, 2, 2)]);
    let mut source = StreamSource::new("l".to_string(), vec![0, 1]);
    assert_eq!(subjects(&archive.page(&mut source, 0, 2)), ["1/0", "p2"]);
}

#[test]
fn a_chase_gives_up_at_its_bound() {
    let mut archive = Archive::new(&[(0, 0)], &[0]);
    let mut mails = vec![patch(1, 9, 9)];
    mails.extend((0..200).map(|n| mail(0, n)));
    archive.epochs.insert(0, mails);
    let mut source = StreamSource::new("l".to_string(), vec![0]);
    assert_eq!(archive.page(&mut source, 0, 1).len(), 65);
}

#[test]
fn pages_together_are_the_stream() {
    let mut archive = Archive::new(&[(0, 7), (1, 0), (2, 5)], &[0, 1, 2]);
    archive.epochs.insert(1, vec![patch(4, 2, 2), mail(1, 0), patch(4, 1, 2)]);
    let mut source = StreamSource::new("l".to_string(), vec![0, 1, 2]);
    for size in 1..8 {
        let mut offset = 0;
        let mut seen = Vec::new();
        while let SourceStatus::Ready(page) = archive.status(&mut source, offset, size) {
            assert_eq!(page.offset, offset);
            offset += page.len();
            seen.extend(subjects(&page));
        }
        assert_eq!(seen.len(), 15);
        let mut sorted = seen.clone();
        sorted.sort();
        sorted.dedup();
        assert_eq!(sorted.len(), 15);
    }
}

/// Serves a page, with the archive and the user answering.
fn serve(
    archive: &mut Archive,
    source: &mut MailSource,
    offset: usize,
    agree: bool,
    clones: bool,
    asked: &mut Vec<u32>,
) -> PageState {
    let (mut request, mut ask) = source.page(offset, 3);
    loop {
        let reply = match ask {
            PageAsk::Archive(a) => PageReply::Archive(archive.reply(&a)),
            PageAsk::Consent(epoch) => {
                asked.push(epoch);
                PageReply::Consent(agree)
            }
            PageAsk::Clone(epoch) => {
                if clones {
                    archive.cloned.push(epoch);
                }
                PageReply::Cloned(clones)
            }
            PageAsk::Scan(_) => PageReply::Scanning,
            PageAsk::Finished(state) => return state,
        };
        let next = source.answer(request, reply);
        request = next.0;
        ask = next.1;
    }
}

#[test]
fn consent_to_clone_carries_the_stream_on() {
    let mut archive = Archive::new(&[(0, 3), (1, 1)], &[1]);
    let mut source = MailSource::Stream(StreamSource::new("l".to_string(), vec![0, 1]));
    assert_eq!(source.list_name(), "l");
    let mut asked = Vec::new();
    let state = serve(&mut archive, &mut source, 0, true, true, &mut asked);
    match state {
        PageState::Ready(page) => assert_eq!(subjects(&page), ["1/0", "0/0", "0/1"]),
        other => panic!("{other:?}"),
    }
    assert_eq!(asked, [0]);
    assert!(matches!(
        serve(&mut archive, &mut source, 9, true, true, &mut asked),
        PageState::End
    ));
}

#[test]
fn a_refusal_or_a_failed_clone_ends_the_stream() {
    for (agree, clones) in [(false, true), (true, false)] {
        let mut archive = Archive::new(&[(0, 3), (1, 1)], &[1]);
        let mut source = MailSource::Stream(StreamSource::new("l".to_string(), vec![0, 1]));
        let mut asked = Vec::new();
        let state = serve(&mut archive, &mut source, 0, agree, clones, &mut asked);
        assert!(matches!(state, PageState::End));
        assert_eq!(asked, [0]);
    }
}
