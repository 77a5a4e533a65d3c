use resort::bed_ex::BedInterval;
use resort::chrom_order::ChromOrder;
use resort::heap::SortKey;
use resort::intersection::{classify, reports, screen, Fault, IntersectionIterator, Placement};
use resort::position::{Positioned, PositionedIterator, StreamError};

type Row = (&'static str, u64, u64);

struct Replay {
    label: String,
    items: Vec<Option<Result<BedInterval, StreamError>>>,
    at: usize,
}

impl Replay {
    fn of(label: &str, rows: &[Row]) -> Replay {
        Replay {
            label: label.to_string(),
            items: rows
                .iter()
                .map(|r| Some(Ok(BedInterval::new(r.0.to_string(), r.1, r.2))))
                .collect(),
            at: 0,
        }
    }

    fn failing_after(label: &str, rows: &[Row], message: &str) -> Replay {
        let mut replay = Replay::of(label, rows);
        replay
            .items
            .push(Some(Err(StreamError::Io(message.to_string()))));
        replay
    }
}

impl PositionedIterator for Replay {
    type Item = BedInterval;

    fn next_position(
        &mut self,
        _hint: Option<&BedInterval>,
    ) -> Option<Result<BedInterval, StreamError>> {
        if self.at < self.items.len() {
            self.at += 1;
            self.items[self.at - 1].take()
        } else {
            None
        }
    }

    fn name(&self) -> String {
        format!("{}:{}", self.label, self.at)
    }
}

fn two_chromosomes() -> ChromOrder {
    let mut order = ChromOrder::new();
    assert_eq!(order.push("chr1".to_string()), Some(0));
    assert_eq!(order.push("chr2".to_string()), Some(1));
    order
}

type Found = (usize, String, u64, u64);

fn run(base: &[Row], others: &[&[Row]]) -> Vec<(String, u64, u64, Vec<Found>)> {
    let order = two_chromosomes();
    let streams: Vec<Replay> = others
        .iter()
        .map(|rows| Replay::of("other", rows))
        .collect();
    let mut merge = IntersectionIterator::new(Replay::of("base", base), streams, &order);
    let mut out = Vec::new();
    loop {
        match merge.next() {
            None => break,
            Some(Ok(rec)) => {
                let found = rec
                    .overlapping()
                    .iter()
                    .map(|(i, p)| (*i, p.chromosome().to_string(), p.start(), p.stop()))
                    .collect();
                out.push((
                    rec.base().chromosome().to_string(),
                    rec.base().start(),
                    rec.base().stop(),
                    found,
                ));
            }
            Some(Err(e)) => panic!("merge failed: {:?}", e),
        }
    }
    out
}

fn counts(base: &[Row], others: &[&[Row]]) -> Vec<(String, u64, u64, usize)> {
    run(base, others)
        .into_iter()
        .map(|(c, s, e, found)| (c, s, e, found.len()))
        .collect()
}

fn key(rank: usize, start: u64, stop: u64) -> SortKey {
    SortKey { rank, start, stop }
}

#[test]
fn basic_overlap_count() {
    // Both intervals of the other stream overlap the first base interval and
    // leave the queue for it; a stream is read once, so none is left for the
    // second.
    let got = run(
        &[("chr1", 20, 30), ("chr1", 21, 33)],
        &[&[("chr1", 21, 30), ("chr1", 22, 33)]],
    );
    assert_eq!(got.len(), 2);
    assert_eq!((got[0].0.as_str(), got[0].1, got[0].2), ("chr1", 20, 30));
    assert_eq!(
        got[0].3,
        vec![
            (1, "chr1".to_string(), 21, 30),
            (1, "chr1".to_string(), 22, 33)
        ]
    );
    assert_eq!((got[1].0.as_str(), got[1].1, got[1].2), ("chr1", 21, 33));
    assert_eq!(got[1].3.len(), 0);
}

#[test]
fn touching_boundaries() {
    let got = counts(&[("chr1", 10, 20)], &[&[("chr1", 20, 30)]]);
    assert_eq!(got, vec![("chr1".to_string(), 10, 20, 0)]);
}

#[test]
fn one_base_overlap() {
    let got = counts(&[("chr1", 10, 20)], &[&[("chr1", 19, 30)]]);
    assert_eq!(got, vec![("chr1".to_string(), 10, 20, 1)]);
}

#[test]
fn chromosome_switch() {
    let got = counts(
        &[("chr1", 0, 10), ("chr2", 0, 10)],
        &[&[("chr1", 5, 15), ("chr2", 0, 5)]],
    );
    assert_eq!(
        got,
        vec![
            ("chr1".to_string(), 0, 10, 1),
            ("chr2".to_string(), 0, 10, 1)
        ]
    );
}

#[test]
fn multiple_other_streams() {
    let got = run(
        &[("chr1", 100, 200)],
        &[&[("chr1", 150, 160)], &[("chr1", 190, 210)]],
    );
    assert_eq!(got.len(), 1);
    assert_eq!(
        got[0].3,
        vec![
            (1, "chr1".to_string(), 150, 160),
            (2, "chr1".to_string(), 190, 210)
        ]
    );
}

#[test]
fn other_stream_exhausted_before_base() {
    let got = counts(&[("chr1", 0, 10), ("chr1", 20, 30)], &[&[("chr1", 0, 5)]]);
    assert_eq!(
        got,
        vec![
            ("chr1".to_string(), 0, 10, 1),
            ("chr1".to_string(), 20, 30, 0)
        ]
    );
}

#[test]
fn unknown_chromosome_in_base() {
    let order = two_chromosomes();
    let mut merge = IntersectionIterator::new(
        Replay::of("base", &[("chr1", 0, 5), ("chrZ", 1, 2)]),
        Vec::new(),
        &order,
    );
    assert!(matches!(merge.next(), Some(Ok(_))));
    match merge.next() {
        Some(Err(e)) => {
            assert_eq!(e.fault, Fault::UnknownChromosome("chrZ".to_string()));
            assert_eq!(e.source, "base:2");
        }
        _ => panic!("expected an unknown chromosome"),
    }
    assert!(merge.next().is_none());
}

#[test]
fn unknown_chromosome_in_other_stream() {
    let order = two_chromosomes();
    let mut merge = IntersectionIterator::new(
        Replay::of("base", &[("chr1", 0, 10), ("chr1", 20, 30)]),
        vec![Replay::of("other", &[("chr1", 1, 2), ("chrZ", 1, 2)])],
        &order,
    );
    // The value on the unknown chromosome is pulled when its predecessor
    // leaves the queue, which is for the first base interval. That record
    // is finished; the call after it reports the error.
    match merge.next() {
        Some(Ok(rec)) => assert_eq!(rec.overlapping().len(), 1),
        _ => panic!("expected the first record"),
    }
    match merge.next() {
        Some(Err(e)) => {
            assert_eq!(e.fault, Fault::UnknownChromosome("chrZ".to_string()));
            assert_eq!(e.source, "other:2");
        }
        _ => panic!("expected an unknown chromosome"),
    }
    assert!(merge.next().is_none());
}

#[test]
fn unknown_chromosome_at_the_head_of_a_stream() {
    let order = two_chromosomes();
    let mut merge = IntersectionIterator::new(
        Replay::of("base", &[("chr1", 0, 10)]),
        vec![Replay::of("other", &[("chrZ", 1, 2)])],
        &order,
    );
    match merge.next() {
        Some(Err(e)) => assert_eq!(e.fault, Fault::UnknownChromosome("chrZ".to_string())),
        _ => panic!("expected an unknown chromosome"),
    }
    assert!(merge.next().is_none());
}

#[test]
fn stream_error_ends_the_merge() {
    let order = two_chromosomes();
    let mut merge = IntersectionIterator::new(
        Replay::failing_after("base", &[("chr1", 0, 10)], "disk"),
        Vec::new(),
        &order,
    );
    assert!(matches!(merge.next(), Some(Ok(_))));
    match merge.next() {
        Some(Err(e)) => assert_eq!(e.fault, Fault::Stream(StreamError::Io("disk".to_string()))),
        _ => panic!("expected a stream error"),
    }
    assert!(merge.next().is_none());
    assert!(merge.next().is_none());
}

#[test]
fn out_of_order_base() {
    let order = two_chromosomes();
    let mut merge = IntersectionIterator::new(
        Replay::of("base", &[("chr1", 10, 20), ("chr1", 10, 20), ("chr1", 5, 8)]),
        Vec::new(),
        &order,
    );
    assert!(matches!(merge.next(), Some(Ok(_))));
    assert!(matches!(merge.next(), Some(Ok(_))));
    match merge.next() {
        Some(Err(e)) => assert_eq!(
            e.fault,
            Fault::OutOfOrder {
                previous: key(0, 10, 20),
                current: key(0, 5, 8)
            }
        ),
        _ => panic!("expected an order error"),
    }
}

#[test]
fn out_of_order_other_stream() {
    let order = two_chromosomes();
    let mut merge = IntersectionIterator::new(
        Replay::of("base", &[("chr2", 0, 10)]),
        vec![Replay::of("other", &[("chr2", 1, 2), ("chr1", 1, 2)])],
        &order,
    );
    match merge.next() {
        Some(Ok(rec)) => assert_eq!(rec.overlapping().len(), 1),
        _ => panic!("expected the first record"),
    }
    match merge.next() {
        Some(Err(e)) => {
            assert_eq!(
                e.fault,
                Fault::OutOfOrder {
                    previous: key(1, 1, 2),
                    current: key(0, 1, 2)
                }
            );
            assert_eq!(e.source, "other:2");
        }
        _ => panic!("expected an order error"),
    }
}

#[test]
fn stream_error_in_other_stream_waits_for_the_next_call() {
    let order = two_chromosomes();
    let mut merge = IntersectionIterator::new(
        Replay::of("base", &[("chr1", 0, 10), ("chr1", 20, 30)]),
        vec![
            Replay::failing_after("first", &[("chr1", 1, 2)], "gone"),
            Replay::of("second", &[("chr1", 3, 4), ("chr1", 25, 26)]),
        ],
        &order,
    );
    match merge.next() {
        Some(Ok(rec)) => {
            let sources: Vec<usize> = rec.overlapping().iter().map(|o| o.0).collect();
            assert_eq!(sources, vec![1, 2]);
        }
        _ => panic!("expected the first record"),
    }
    match merge.next() {
        Some(Err(e)) => {
            assert_eq!(e.fault, Fault::Stream(StreamError::Io("gone".to_string())));
            assert_eq!(e.source, "first:2");
        }
        _ => panic!("expected the stream error"),
    }
    assert!(merge.next().is_none());
}

#[test]
fn values_beyond_the_limit_are_refused() {
    let order = two_chromosomes();
    let mut merge = IntersectionIterator::with_limit(
        Replay::of("base", &[("chr1", 0, 10), ("chr1", 20, 30)]),
        vec![Replay::of("other", &[("chr1", 1, 2), ("chr1", 3, 4)])],
        &order,
        1,
    );
    match merge.next() {
        Some(Ok(rec)) => assert_eq!(rec.overlapping().len(), 1),
        _ => panic!("expected the first record"),
    }
    match merge.next() {
        Some(Err(e)) => {
            assert_eq!(e.fault, Fault::TooManyValues);
            assert_eq!(e.source, "other:2");
        }
        _ => panic!("expected the limit to be hit"),
    }
    assert!(merge.next().is_none());
}

#[test]
fn a_value_handed_to_the_merge_becomes_a_head() {
    let order = two_chromosomes();
    let empty: [Row; 0] = [];
    let mut merge = IntersectionIterator::new(
        Replay::of("base", &[("chr1", 0, 10)]),
        vec![Replay::of("first", &empty), Replay::of("second", &empty)],
        &order,
    );
    let pulled = Some(Ok(BedInterval::new("chr1".to_string(), 1, 2)));
    assert!(merge.enqueue(2, pulled, None));
    assert!(merge.enqueue(1, None, None));
    match merge.next() {
        Some(Ok(rec)) => {
            let found: Vec<(usize, u64, u64)> = rec
                .overlapping()
                .iter()
                .map(|(i, p)| (*i, p.start(), p.stop()))
                .collect();
            assert_eq!(found, vec![(2, 1, 2)]);
        }
        _ => panic!("expected a record"),
    }
    assert!(merge.next().is_none());
}

#[test]
fn a_refused_pull_is_kept_for_the_next_call() {
    let order = two_chromosomes();
    let empty: [Row; 0] = [];
    let refused: [(Option<Result<BedInterval, StreamError>>, Option<SortKey>, Fault); 3] = [
        (
            Some(Err(StreamError::Io("cut".to_string()))),
            None,
            Fault::Stream(StreamError::Io("cut".to_string())),
        ),
        (
            Some(Ok(BedInterval::new("chrZ".to_string(), 1, 2))),
            None,
            Fault::UnknownChromosome("chrZ".to_string()),
        ),
        (
            Some(Ok(BedInterval::new("chr1".to_string(), 1, 2))),
            Some(key(0, 1, 3)),
            Fault::OutOfOrder {
                previous: key(0, 1, 3),
                current: key(0, 1, 2),
            },
        ),
    ];
    for (pulled, floor, fault) in refused {
        let mut merge = IntersectionIterator::new(
            Replay::of("base", &[("chr1", 0, 10)]),
            vec![Replay::of("other", &empty)],
            &order,
        );
        assert!(!merge.enqueue(1, pulled, floor));
        // Only the first error is kept.
        assert!(!merge.enqueue(1, Some(Err(StreamError::Io("later".to_string()))), floor));
        match merge.next() {
            Some(Err(e)) => {
                assert_eq!(e.fault, fault);
                assert_eq!(e.source, "other:0");
            }
            _ => panic!("expected the kept error"),
        }
        assert!(merge.next().is_none());
    }
}

#[test]
fn heads_that_are_ahead_stay_for_later_bases() {
    let got = run(
        &[("chr1", 0, 10), ("chr1", 20, 30), ("chr2", 0, 5)],
        &[
            &[("chr1", 25, 26), ("chr2", 1, 2)],
            &[("chr1", 5, 6), ("chr2", 3, 9)],
        ],
    );
    assert_eq!(got[0].3, vec![(2, "chr1".to_string(), 5, 6)]);
    assert_eq!(got[1].3, vec![(1, "chr1".to_string(), 25, 26)]);
    assert_eq!(
        got[2].3,
        vec![(1, "chr2".to_string(), 1, 2), (2, "chr2".to_string(), 3, 9)]
    );
}

#[test]
fn empty_base_emits_nothing() {
    let got = counts(&[], &[&[("chr1", 0, 5)]]);
    assert_eq!(got.len(), 0);
}

#[test]
fn no_other_streams() {
    let got = counts(&[("chr1", 0, 10), ("chr2", 3, 4)], &[]);
    assert_eq!(
        got,
        vec![
            ("chr1".to_string(), 0, 10, 0),
            ("chr2".to_string(), 3, 4, 0)
        ]
    );
}

#[test]
fn empty_other_streams() {
    let got = counts(&[("chr1", 0, 10), ("chr1", 3, 4)], &[&[], &[]]);
    assert_eq!(
        got,
        vec![
            ("chr1".to_string(), 0, 10, 0),
            ("chr1".to_string(), 3, 4, 0)
        ]
    );
}

#[test]
fn base_against_itself() {
    // Intervals that neither overlap nor abut: each meets itself alone.
    let rows: [Row; 3] = [("chr1", 0, 10), ("chr1", 11, 20), ("chr2", 5, 6)];
    let got = run(&rows, &[&rows]);
    assert_eq!(got.len(), 3);
    for (i, rec) in got.iter().enumerate() {
        assert_eq!(rec.3, vec![(1, rows[i].0.to_string(), rows[i].1, rows[i].2)]);
    }
}

#[test]
fn a_head_that_starts_where_the_base_stops_leaves_the_queue() {
    let got = counts(
        &[("chr1", 0, 10), ("chr1", 10, 20)],
        &[&[("chr1", 10, 20)]],
    );
    assert_eq!(
        got,
        vec![
            ("chr1".to_string(), 0, 10, 0),
            ("chr1".to_string(), 10, 20, 0)
        ]
    );
}

#[test]
fn stale_heads_are_dropped() {
    let got = run(
        &[("chr2", 100, 200)],
        &[&[("chr1", 0, 5), ("chr1", 100, 200), ("chr2", 0, 100), ("chr2", 150, 160), ("chr2", 300, 400)]],
    );
    assert_eq!(got.len(), 1);
    assert_eq!(got[0].3, vec![(1, "chr2".to_string(), 150, 160)]);
}

#[test]
fn reports_come_in_start_stop_stream_order() {
    let got = run(
        &[("chr1", 0, 100)],
        &[
            &[("chr1", 5, 9), ("chr1", 7, 8)],
            &[("chr1", 5, 6), ("chr1", 7, 8)],
            &[("chr1", 1, 2)],
        ],
    );
    assert_eq!(
        got[0].3,
        vec![
            (3, "chr1".to_string(), 1, 2),
            (2, "chr1".to_string(), 5, 6),
            (1, "chr1".to_string(), 5, 9),
            (1, "chr1".to_string(), 7, 8),
            (2, "chr1".to_string(), 7, 8),
        ]
    );
}

#[test]
fn zero_length_intervals() {
    // At the start or the stop of the base: no overlap.
    assert_eq!(
        counts(&[("chr1", 10, 20)], &[&[("chr1", 10, 10), ("chr1", 20, 20)]]),
        vec![("chr1".to_string(), 10, 20, 0)]
    );
    // A base of length zero against an interval that starts or stops there.
    assert_eq!(
        counts(&[("chr1", 10, 10)], &[&[("chr1", 5, 10), ("chr1", 10, 15)]]),
        vec![("chr1".to_string(), 10, 10, 0)]
    );
    // Strictly inside the base, each starts before the other stops.
    assert_eq!(
        counts(&[("chr1", 10, 20)], &[&[("chr1", 15, 15)]]),
        vec![("chr1".to_string(), 10, 20, 1)]
    );
}

#[test]
fn half_open_overlap_of_keys() {
    assert!(!reports(&key(0, 20, 30), &key(0, 10, 20)));
    assert!(!reports(&key(0, 10, 20), &key(0, 20, 30)));
    assert!(reports(&key(0, 19, 30), &key(0, 10, 20)));
    assert!(reports(&key(0, 10, 20), &key(0, 19, 30)));
    assert!(!reports(&key(1, 19, 30), &key(0, 10, 20)));
    assert!(!reports(&key(0, 7, 7), &key(0, 7, 9)));
    assert!(!reports(&key(0, 9, 9), &key(0, 7, 9)));
}

#[test]
fn placement_of_heads() {
    let base = key(1, 10, 20);
    assert_eq!(classify(&key(0, 15, 16), &base), Placement::BehindChromosome);
    assert_eq!(classify(&key(2, 0, 1), &base), Placement::Ahead);
    assert_eq!(classify(&key(1, 0, 10), &base), Placement::BehindPosition);
    assert_eq!(classify(&key(1, 0, 11), &base), Placement::Candidate);
    assert_eq!(classify(&key(1, 20, 30), &base), Placement::Candidate);
    assert_eq!(classify(&key(1, 21, 30), &base), Placement::Ahead);
}

#[test]
fn sort_keys_compare_by_rank_start_stop() {
    assert!(key(0, 9, 9).is_not_after(&key(1, 0, 0)));
    assert!(!key(1, 0, 0).is_not_after(&key(0, 9, 9)));
    assert!(key(0, 1, 9).is_not_after(&key(0, 2, 0)));
    assert!(key(0, 1, 1).is_not_after(&key(0, 1, 2)));
    assert!(key(0, 1, 2).is_not_after(&key(0, 1, 2)));
    assert!(!key(0, 1, 3).is_not_after(&key(0, 1, 2)));
}

#[test]
fn screening_a_pull() {
    let order = two_chromosomes();
    let nothing: Option<Result<BedInterval, StreamError>> = None;
    assert!(matches!(screen(&order, nothing, None), Ok(None)));
    let failed: Option<Result<BedInterval, StreamError>> =
        Some(Err(StreamError::InvalidData("bad".to_string())));
    assert_eq!(
        screen(&order, failed, None).err(),
        Some(Fault::Stream(StreamError::InvalidData("bad".to_string())))
    );
    let value = |c: &str, s: u64, e: u64| Some(Ok(BedInterval::new(c.to_string(), s, e)));
    match screen(&order, value("chr2", 3, 4), Some(key(1, 3, 4))) {
        Ok(Some((p, rank))) => {
            assert_eq!(rank, 1);
            assert_eq!((p.chromosome(), p.start(), p.stop()), ("chr2", 3, 4));
        }
        _ => panic!("expected the value to pass"),
    }
    assert_eq!(
        screen(&order, value("chr2", 3, 4), Some(key(1, 3, 5))).err(),
        Some(Fault::OutOfOrder {
            previous: key(1, 3, 5),
            current: key(1, 3, 4)
        })
    );
    assert_eq!(
        screen(&order, value("chrM", 3, 4), None).err(),
        Some(Fault::UnknownChromosome("chrM".to_string()))
    );
}

#[test]
fn order_table_ranks_names_as_they_come() {
    let mut order = ChromOrder::new();
    assert_eq!(order.len(), 0);
    assert_eq!(order.rank("chr10"), None);
    assert_eq!(order.push("chr10".to_string()), Some(0));
    assert_eq!(order.push("chr2".to_string()), Some(1));
    assert_eq!(order.push("chr10".to_string()), None);
    assert_eq!(order.len(), 2);
    assert_eq!(order.rank("chr10"), Some(0));
    assert_eq!(order.rank("chr2"), Some(1));
    assert_eq!(order.rank("chr1"), None);
}
