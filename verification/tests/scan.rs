use lkml_reader::clock::{DateRange, Moment, Stamp};
use lkml_reader::constraints::FilterSet;
use lkml_reader::mail_source::{MailSource, PageAsk, PageReply};
use lkml_reader::message::Message;
use lkml_reader::scan::{FilteredSource, ScanAsk, ScanReply, ScanWorker};
use lkml_reader::source::{PageState, SourceStatus};

fn mail(secs: i64) -> Message {
    let mut m = Message::default();
    m.subject = format!("{secs}");
    m.date = Some(Stamp {
        moment: Moment { secs, nanos: 0 },
        offset: 0,
    });
    m
}

fn filters(start: i64, end: i64) -> FilterSet {
    let mut set = FilterSet::new();
    let range = DateRange {
        start: Moment {
            secs: start,
            nanos: 0,
        },
        end: Moment {
            secs: end,
            nanos: 0,
        },
    };
    assert!(set.date.adopt(Ok(range)).is_ok());
    set
}

fn started(present: &[bool]) -> (FilteredSource, Vec<u32>) {
    let epochs: Vec<u32> = (0..present.len() as u32).collect();
    FilteredSource::start("l".to_string(), filters(0, 100), &epochs, &present.to_vec())
}

fn subjects(mails: &[Message]) -> Vec<&str> {
    mails.iter().map(|m| m.subject.as_str()).collect()
}

#[test]
fn cloned_epochs_are_scanned_newest_first() {
    let (source, scan) = started(&[true, false, true, false]);
    assert_eq!(scan, [2, 0]);
    assert_eq!(source.uncloned, [3, 1]);
    assert!(!source.done);
    assert!(source.results.is_empty());
}

#[test]
fn a_scan_loads_until_the_page_is_full() {
    let (mut source, _) = started(&[true]);
    match source.status(0, 2) {
        SourceStatus::Loading(text) => assert!(text.ends_with("… (0 matches so far)")),
        other => panic!("{other:?}"),
    }
    source.poll(vec![mail(1)], false);
    assert!(matches!(source.status(0, 2), SourceStatus::Loading(_)));
    source.poll(vec![mail(2), mail(3)], false);
    match source.status(0, 2) {
        SourceStatus::Ready(page) => {
            assert_eq!(subjects(&page.mails), ["1", "2"]);
            assert_eq!(page.indent(), &vec![false, false]);
        }
        other => panic!("{other:?}"),
    }
    // A short last page is only shown once the worker is done.
    assert!(matches!(source.status(2, 2), SourceStatus::Loading(_)));
    source.poll(Vec::new(), true);
    match source.status(2, 2) {
        SourceStatus::Ready(page) => assert_eq!((subjects(&page.mails), page.offset), (vec!["3"], 2)),
        other => panic!("{other:?}"),
    }
    assert!(matches!(source.status(3, 2), SourceStatus::Exhausted));
}

#[test]
fn pages_past_the_end_are_empty() {
    let (mut source, _) = started(&[true]);
    source.poll(vec![mail(1), mail(2)], false);
    assert_eq!(source.page(1, usize::MAX).len(), 1);
    assert_eq!(source.page(2, 5).len(), 0);
    assert_eq!(source.page(9, 5).len(), 0);
    assert_eq!(source.page(0, 0).len(), 0);
}

#[test]
fn full_pages_stay_as_they_are() {
    let (mut source, _) = started(&[true]);
    source.poll(vec![mail(1), mail(2), mail(3)], false);
    let before: Vec<String> = source.page(1, 2).mails.iter().map(|m| m.subject.clone()).collect();
    source.poll(vec![mail(4), mail(5)], true);
    assert_eq!(subjects(&source.page(1, 2).mails), before);
    let mut all = Vec::new();
    for offset in [0, 2, 4] {
        all.extend(source.page(offset, 2).mails.iter().map(|m| m.subject.clone()));
    }
    assert_eq!(all, ["1", "2", "3", "4", "5"]);
}

#[test]
fn a_finished_scan_asks_for_the_next_epoch() {
    let (mut source, _) = started(&[false, true, false]);
    source.poll(Vec::new(), true);
    assert!(matches!(source.status(0, 2), SourceStatus::NeedsClone(2)));
    source.discard_uncloned(2);
    assert!(matches!(source.status(0, 2), SourceStatus::NeedsClone(0)));
    source.extend(0);
    assert!(source.uncloned.is_empty());
    assert!(!source.done);
    assert!(matches!(source.status(0, 2), SourceStatus::Loading(_)));
}

#[test]
fn a_refusal_only_skips_the_epoch_in_a_scan() {
    let (mut scan, _) = started(&[false, true, false]);
    scan.poll(Vec::new(), true);
    let mut source = MailSource::Filtered(scan);
    source.poll(vec![mail(1)], false);
    let (request, ask) = source.page(1, 4);
    assert!(matches!(ask, PageAsk::Consent(2)));
    let (request, ask) = source.answer(request, PageReply::Consent(false));
    assert!(matches!(ask, PageAsk::Consent(0)));
    let (request, ask) = source.answer(request, PageReply::Consent(true));
    assert!(matches!(ask, PageAsk::Clone(0)));
    let (request, ask) = source.answer(request, PageReply::Cloned(true));
    assert!(matches!(ask, PageAsk::Scan(0)));
    let (_, ask) = source.answer(request, PageReply::Scanning);
    assert!(matches!(ask, PageAsk::Finished(PageState::Pending(_))));
}

#[test]
fn declining_every_epoch_ends_a_scan() {
    let (mut scan, _) = started(&[false, false]);
    scan.poll(Vec::new(), true);
    let mut source = MailSource::Filtered(scan);
    let (request, ask) = source.page(0, 4);
    assert!(matches!(ask, PageAsk::Consent(1)));
    let (request, ask) = source.answer(request, PageReply::Consent(false));
    assert!(matches!(ask, PageAsk::Consent(0)));
    let (_, ask) = source.answer(request, PageReply::Consent(false));
    assert!(matches!(ask, PageAsk::Finished(PageState::End)));
}

#[test]
fn a_failed_clone_ends_the_request() {
    let (mut scan, _) = started(&[false]);
    scan.poll(Vec::new(), true);
    let mut source = MailSource::Filtered(scan);
    let (request, _) = source.page(0, 4);
    let (request, _) = source.answer(request, PageReply::Consent(true));
    let (_, ask) = source.answer(request, PageReply::Cloned(false));
    assert!(matches!(ask, PageAsk::Finished(PageState::End)));
}

/// Runs a worker over epochs in memory and gives what it sent.
fn run(
    worker: (ScanWorker, ScanAsk),
    cloned: &[u32],
    epochs: &[(u32, Option<Vec<Message>>)],
    cancel_after: usize,
    take: usize,
) -> Vec<String> {
    let (mut worker, mut ask) = worker;
    let mut sent = Vec::new();
    let mut reading: Vec<Message> = Vec::new();
    let mut steps = 0;
    loop {
        steps += 1;
        let cancelled = steps > cancel_after;
        let hits = |epoch: u32| epochs.iter().find(|e| e.0 == epoch).and_then(|e| e.1.as_ref());
        let reply = match ask {
            ScanAsk::Probe(epoch) => ScanReply::Probed {
                cancelled,
                cloned: cloned.contains(&epoch),
            },
            ScanAsk::Search(epoch) => {
                ScanReply::Found(hits(epoch).map(|m| m.iter().map(|x| x.subject.clone()).collect()))
            }
            ScanAsk::Read(epoch, commits) => {
                reading = hits(epoch).unwrap().to_vec();
                assert_eq!(commits.len(), reading.len());
                reading.reverse();
                ScanReply::Mail {
                    cancelled,
                    mail: reading.pop(),
                }
            }
            ScanAsk::Next => ScanReply::Mail {
                cancelled,
                mail: reading.pop(),
            },
            ScanAsk::Send(m) => {
                if sent.len() < take {
                    sent.push(m.subject.clone());
                    ScanReply::Sent(true)
                } else {
                    ScanReply::Sent(false)
                }
            }
            ScanAsk::Stopped => return sent,
        };
        ask = worker.answer(reply);
    }
}

fn archive() -> Vec<(u32, Option<Vec<Message>>)> {
    vec![
        (0, Some(vec![mail(5), mail(250)])),
        (1, None),
        (2, Some(vec![mail(7), mail(300), mail(8)])),
        (3, Some(vec![mail(9)])),
    ]
}

#[test]
fn a_worker_sends_what_the_filters_admit() {
    let worker = ScanWorker::begin(filters(0, 100), vec![3, 2, 1, 0]);
    // Epoch 3 is not cloned, and searching epoch 1 fails.
    let sent = run(worker, &[0, 1, 2], &archive(), usize::MAX, usize::MAX);
    assert_eq!(sent, ["7", "8", "5"]);
}

#[test]
fn a_worker_stops_when_cancelled_or_left_alone() {
    let worker = ScanWorker::begin(filters(0, 100), vec![2, 0]);
    assert!(run(worker, &[0, 2], &archive(), 0, usize::MAX).is_empty());
    let worker = ScanWorker::begin(filters(0, 100), vec![2, 0]);
    assert_eq!(run(worker, &[0, 2], &archive(), 4, usize::MAX), ["7"]);
    let worker = ScanWorker::begin(filters(0, 100), vec![2, 0]);
    assert_eq!(run(worker, &[0, 2], &archive(), usize::MAX, 2), ["7", "8"]);
}

#[test]
fn a_worker_without_epochs_is_done() {
    let worker = ScanWorker::begin(filters(0, 100), Vec::new());
    assert!(matches!(worker.1, ScanAsk::Stopped));
}
