use resort::bed_ex::{BedFile, BedInterval, LineStep};
use resort::bedder_bed::{BedRecord, BedderBed, Step};
use resort::chrom_order::ChromOrder;
use resort::intersection::IntersectionIterator;
use resort::position::{
    coordinate_as_value, Field, FieldError, Positioned, PositionedIterator, StreamError, Value,
};
use resort::text::{chars_of, field_end, is_whitespace, parse_number, string_of, trim};
use std::io::{BufRead, Cursor};

struct Lines<R: BufRead> {
    reader: noodles::bed::Reader<R>,
    buf: String,
    state: BedderBed,
}

impl<R: BufRead> Lines<R> {
    fn new(inner: R) -> Lines<R> {
        Lines {
            reader: noodles::bed::Reader::new(inner),
            buf: String::new(),
            state: BedderBed::new(),
        }
    }
}

impl<R: BufRead> PositionedIterator for Lines<R> {
    type Item = BedRecord;

    fn next_position(
        &mut self,
        _hint: Option<&BedRecord>,
    ) -> Option<Result<BedRecord, StreamError>> {
        loop {
            self.buf.clear();
            let read = match self.reader.read_line(&mut self.buf) {
                Ok(n) => Ok(n),
                Err(e) => Err(StreamError::Io(e.to_string())),
            };
            match self.state.step(read, &self.buf) {
                Step::End => return None,
                Step::Skip => {}
                Step::Record(record) => return Some(Ok(record)),
                Step::Failed(e) => return Some(Err(e)),
            }
        }
    }

    fn name(&self) -> String {
        self.state.name()
    }
}

fn two_chromosomes() -> ChromOrder {
    let mut order = ChromOrder::new();
    order.push(String::from("chr1"));
    order.push(String::from("chr2"));
    order
}

#[test]
fn test_bed_read() {
    let ar = Lines::new(Cursor::new("chr1\t20\t30\nchr1\t21\t33"));
    let br = Lines::new(Cursor::new("chr1\t21\t30\nchr1\t22\t33"));

    let chrom_order = two_chromosomes();

    let mut it = IntersectionIterator::new(ar, vec![br], &chrom_order);

    // Both intervals of the second input overlap the first base interval and
    // are reported with it; the input is read once, so the second base
    // interval finds nothing left.
    let mut n = 0;
    let mut found = Vec::new();
    while let Some(int) = it.next() {
        let int = int.expect("error getting intersection");
        found.push(int.overlapping.len());
        n += 1;
    }
    assert!(n == 2);
    assert_eq!(found, vec![2, 0]);
}

#[test]
fn comments_and_blank_lines_are_skipped() {
    let text = "#header\nchr1\t5\t9\n\n# more\r\nchr2\t0\t1\n";
    let mut lines = Lines::new(Cursor::new(text));
    let first = lines.next_position(None).unwrap().unwrap();
    assert_eq!((first.chromosome(), first.start(), first.stop()), ("chr1", 5, 9));
    assert_eq!(lines.name(), "bed:2");
    let second = lines.next_position(None).unwrap().unwrap();
    assert_eq!((second.chromosome(), second.start(), second.stop()), ("chr2", 0, 1));
    assert_eq!(lines.name(), "bed:5");
    assert!(lines.next_position(None).is_none());
    assert_eq!(lines.name(), "bed:6");
}

#[test]
fn step_decides_by_read_and_line() {
    let mut state = BedderBed::new();
    assert_eq!(state.line_number(), 0);
    assert!(state.last_record().is_none());
    assert!(matches!(state.step(Ok(1), ""), Step::Skip));
    assert!(matches!(state.step(Ok(9), "#chr1\t1\t2"), Step::Skip));
    assert!(state.last_record().is_none());
    match state.step(Ok(10), "chr7\t10\t25") {
        Step::Record(r) => {
            assert_eq!(r.chromosome(), "chr7");
            assert_eq!(r.start(), 10);
            assert_eq!(r.stop(), 25);
        }
        _ => panic!("expected a record"),
    }
    let last = state.last_record().unwrap();
    assert_eq!((last.chrom.as_str(), last.start, last.stop), ("chr7", 10, 25));
    match state.step(Ok(10), "chr7\t11\t26\tname\t3") {
        Step::Record(r) => assert_eq!((r.chromosome(), r.start(), r.stop()), ("chr7", 11, 26)),
        _ => panic!("expected a record"),
    }
    let last = state.last_record().unwrap();
    assert_eq!((last.chrom.as_str(), last.start, last.stop), ("chr7", 11, 26));
    assert!(matches!(state.step(Ok(0), ""), Step::End));
    assert_eq!(state.line_number(), 5);
    assert_eq!(state.name(), "bed:5");
}

#[test]
fn step_reports_lines_that_are_no_records() {
    let mut state = BedderBed::new();
    let lines = [
        "chr1",
        "chr1\t5",
        "chr1\tx\t9",
        "chr1\t5\tx",
        "chr1\t5\t0",
        "chr1\t-1\t4",
        "chr1\t\t4",
        "chr1\t18446744073709551615\t4",
        "chr1\t4\t18446744073709551616",
        "chr1\t4 \t5",
    ];
    for (i, line) in lines.iter().enumerate() {
        match state.step(Ok(line.len()), line) {
            Step::Failed(StreamError::InvalidData(message)) => {
                let prefix = format!("line#{}:{} error: ", i + 1, line);
                assert!(message.starts_with(&prefix));
                assert!(message.len() > prefix.len());
            }
            _ => panic!("expected a failure for {:?}", line),
        }
    }
    assert!(state.last_record().is_none());
    assert_eq!(state.line_number(), 10);
}

#[test]
fn step_reads_the_standard_fields() {
    let mut state = BedderBed::new();
    let cases: [(&str, (&str, u64, u64)); 6] = [
        ("chr1\t0\t1", ("chr1", 0, 1)),
        ("chr1\t+5\t+7", ("chr1", 5, 7)),
        ("\t1\t2", ("", 1, 2)),
        ("chr 1\t007\t3\t\t\t", ("chr 1", 7, 3)),
        ("c\t18446744073709551614\t18446744073709551615", ("c", u64::MAX - 1, u64::MAX)),
        ("chrM\t9\t4\tname", ("chrM", 9, 4)),
    ];
    for (line, want) in cases {
        match state.step(Ok(line.len()), line) {
            Step::Record(r) => assert_eq!((r.chromosome(), r.start(), r.stop()), want),
            _ => panic!("expected a record for {:?}", line),
        }
    }
}

#[test]
fn step_hands_a_read_error_on() {
    let mut state = BedderBed::new();
    match state.step(Err(StreamError::Io("broken pipe".to_string())), "chr1\t1\t2") {
        Step::Failed(e) => assert_eq!(e, StreamError::Io("broken pipe".to_string())),
        _ => panic!("expected the read error"),
    }
    assert_eq!(state.line_number(), 1);
}

#[test]
fn reader_names_count_reads() {
    let mut state = BedderBed::new();
    assert_eq!(state.name(), "bed:0");
    for _ in 0..1234 {
        state.step(Ok(1), "");
    }
    assert_eq!(state.name(), "bed:1234");
}

#[test]
fn accept_takes_positions_counted_from_one() {
    let mut state = BedderBed::new();
    assert!(state.accept("chr1".to_string(), 0, 5).is_none());
    assert!(state.accept("chr1".to_string(), 1, 0).is_none());
    assert!(state.last_record().is_none());
    let r = state.accept("chr1".to_string(), 1, 5).unwrap();
    assert_eq!((r.chromosome(), r.start(), r.stop()), ("chr1", 0, 5));
    let r = state.accept("chr1".to_string(), 8, 8).unwrap();
    assert_eq!((r.chromosome(), r.start(), r.stop()), ("chr1", 7, 8));
    let last = state.last_record().unwrap();
    assert_eq!((last.chrom.as_str(), last.start, last.stop), ("chr1", 7, 8));
    let r = state.accept("chr2".to_string(), 3, 4).unwrap();
    assert_eq!((r.chromosome(), r.start(), r.stop()), ("chr2", 2, 4));
    assert_eq!(state.last_record().unwrap().chrom, "chr2");
}

#[test]
fn bed_record_fields() {
    assert!(BedRecord::new("chr1".to_string(), 0, 4).is_none());
    assert!(BedRecord::new("chr1".to_string(), 4, 0).is_none());
    let r = BedRecord::new("chr3".to_string(), 8, 13).unwrap();
    assert_eq!((r.chromosome(), r.start(), r.stop()), ("chr3", 7, 13));
    assert_eq!(r.value(Field::Int(0)), Ok(Value::Strings(vec!["chr3".to_string()])));
    assert_eq!(r.value(Field::Int(1)), Ok(Value::Ints(vec![7])));
    assert_eq!(r.value(Field::Int(2)), Ok(Value::Ints(vec![13])));
    assert_eq!(r.value(Field::Int(3)), Err(FieldError::InvalidFieldIndex(3)));
    assert_eq!(
        r.value(Field::String("score".to_string())),
        Err(FieldError::InvalidFieldName("score".to_string()))
    );
}

#[test]
fn bed_interval_fields() {
    let r = BedInterval::new("chrX".to_string(), 2, 3);
    assert_eq!((r.chromosome(), r.start(), r.stop()), ("chrX", 2, 3));
    assert_eq!(r.value(Field::Int(0)), Ok(Value::Strings(vec!["chrX".to_string()])));
    assert_eq!(r.value(Field::Int(1)), Ok(Value::Ints(vec![2])));
    assert_eq!(r.value(Field::Int(2)), Ok(Value::Ints(vec![3])));
    assert_eq!(r.value(Field::Int(7)), Err(FieldError::InvalidFieldIndex(7)));
    assert_eq!(
        r.value(Field::String("name".to_string())),
        Err(FieldError::InvalidFieldName("name".to_string()))
    );
}

#[test]
fn coordinates_as_signed_values() {
    assert_eq!(coordinate_as_value(0), 0);
    assert_eq!(coordinate_as_value(41), 41);
    assert_eq!(coordinate_as_value(i64::MAX as u64), i64::MAX);
    assert_eq!(coordinate_as_value(i64::MAX as u64 + 1), i64::MIN);
    assert_eq!(coordinate_as_value(u64::MAX), -1);
}

fn interval_of(file: &mut BedFile, line: &str) -> BedInterval {
    match file.parse_line(line) {
        Ok(Some(interval)) => interval,
        _ => panic!("expected an interval in {:?}", line),
    }
}

#[test]
fn plain_lines() {
    let mut file = BedFile::new();
    let r = interval_of(&mut file, "chr1\t10\t20\n");
    assert_eq!((r.chromosome(), r.start(), r.stop()), ("chr1", 10, 20));
    assert_eq!(file.chromosomes_seen(), 1);
    let r = interval_of(&mut file, "  chr1\t+11\t0021\textra \r\n");
    assert_eq!((r.chromosome(), r.start(), r.stop()), ("chr1", 11, 21));
    assert_eq!(file.chromosomes_seen(), 1);
    let r = interval_of(&mut file, "chr2\t0\t18446744073709551615");
    assert_eq!((r.chromosome(), r.start(), r.stop()), ("chr2", 0, u64::MAX));
    assert_eq!(file.chromosomes_seen(), 2);
    let r = interval_of(&mut file, "chr1\t1\t2");
    assert_eq!(r.chromosome(), "chr1");
    assert_eq!(file.chromosomes_seen(), 3);
}

#[test]
fn plain_lines_that_hold_nothing() {
    let mut file = BedFile::new();
    for line in ["", "\n", "  \t \r\n", "#chr1\t1\t2", "  # a comment\n"] {
        assert!(matches!(file.parse_line(line), Ok(None)));
    }
    assert_eq!(file.chromosomes_seen(), 0);
}

#[test]
fn plain_lines_without_an_interval() {
    let mut file = BedFile::new();
    for line in [
        "chr1",
        "chr1\t5",
        "chr1\t5\t",
        "chr1\t\t5",
        "chr1\t5\t-6",
        "chr1\t5 \t6",
        "chr1\tabc\t10\n",
        "chr1\t5\t18446744073709551616",
        "chr1 5 6",
    ] {
        assert_eq!(
            file.parse_line(line).err(),
            Some(StreamError::InvalidData("bed_ex line 0: no interval".to_string()))
        );
    }
    assert_eq!(file.chromosomes_seen(), 0);
}

fn plain_steps(text: &str) -> Vec<Result<(String, u64, u64), StreamError>> {
    let mut file = BedFile::new();
    let mut out = Vec::new();
    let mut rest = text;
    loop {
        let cut = rest.find('\n').map(|i| i + 1).unwrap_or(rest.len());
        let (line, tail) = rest.split_at(cut);
        rest = tail;
        match file.step(Ok(line.len()), line) {
            LineStep::End => return out,
            LineStep::Skip => {}
            LineStep::Interval(v) => out.push(Ok((v.chromosome().to_string(), v.start(), v.stop()))),
            LineStep::Failed(e) => {
                out.push(Err(e));
                return out;
            }
        }
    }
}

#[test]
fn blank_lines_between_intervals_are_skipped() {
    assert_eq!(
        plain_steps("chr1\t1\t2\n\nchr1\t3\t4\n"),
        vec![Ok(("chr1".to_string(), 1, 2)), Ok(("chr1".to_string(), 3, 4))]
    );
    assert_eq!(
        plain_steps("# header\nchr1\t1\t2\n   \n#x\nchr2\t3\t4"),
        vec![Ok(("chr1".to_string(), 1, 2)), Ok(("chr2".to_string(), 3, 4))]
    );
    assert_eq!(plain_steps(""), vec![]);
}

#[test]
fn a_line_that_is_no_interval_fails_the_stream() {
    assert_eq!(
        plain_steps("chr1\t1\t2\nchr1\tabc\t10\nchr1\t3\t4\n"),
        vec![
            Ok(("chr1".to_string(), 1, 2)),
            Err(StreamError::InvalidData("bed_ex line 2: no interval".to_string()))
        ]
    );
}

#[test]
fn plain_reader_counts_reads_and_hands_read_errors_on() {
    let mut file = BedFile::new();
    assert_eq!(file.name(), "bed_ex:0");
    assert!(matches!(file.step(Ok(1), "\n"), LineStep::Skip));
    match file.step(Err(StreamError::Io("torn".to_string())), "") {
        LineStep::Failed(e) => assert_eq!(e, StreamError::Io("torn".to_string())),
        _ => panic!("expected the read error"),
    }
    assert!(matches!(file.step(Ok(0), ""), LineStep::End));
    assert_eq!(file.line_number(), 3);
    assert_eq!(file.name(), "bed_ex:3");
}

#[test]
fn numbers_as_text() {
    assert_eq!(parse_number("0"), Some(0));
    assert_eq!(parse_number("007"), Some(7));
    assert_eq!(parse_number("+42"), Some(42));
    assert_eq!(parse_number("18446744073709551615"), Some(u64::MAX));
    assert_eq!(parse_number("18446744073709551616"), None);
    assert_eq!(parse_number("99999999999999999999999"), None);
    assert_eq!(parse_number(""), None);
    assert_eq!(parse_number("+"), None);
    assert_eq!(parse_number("-1"), None);
    assert_eq!(parse_number("++1"), None);
    assert_eq!(parse_number("1+"), None);
    assert_eq!(parse_number("12a"), None);
    assert_eq!(parse_number(" 12"), None);
    assert_eq!(parse_number("\u{0661}"), None);
    for text in ["0", "+7", "", "+", "-3", "1e3", "18446744073709551615", "18446744073709551616"] {
        assert_eq!(parse_number(text), text.parse::<u64>().ok());
    }
}

#[test]
fn trimming_and_fields() {
    let chars = chars_of(" \t a\u{00e9}\tb \u{3000}\n");
    assert_eq!(chars.len(), 10);
    let kept = trim(&chars);
    assert_eq!(kept, vec!['a', '\u{00e9}', '\t', 'b']);
    assert_eq!(field_end(&kept, 0), 2);
    assert_eq!(field_end(&kept, 2), 2);
    assert_eq!(field_end(&kept, 3), 4);
    assert_eq!(field_end(&kept, 4), 4);
    assert_eq!(string_of(&kept, 0, 2), "a\u{00e9}");
    assert_eq!(string_of(&kept, 3, 4), "b");
    assert_eq!(string_of(&kept, 1, 1), "");
    assert_eq!(trim(&chars_of("   ")).len(), 0);
    assert_eq!(trim(&chars_of("")).len(), 0);
    for u in 0u32..0x3100 {
        if let Some(c) = char::from_u32(u) {
            assert_eq!(is_whitespace(c), c.is_whitespace());
        }
    }
    for text in ["", "  x ", "\u{2028}x\u{2029}", "x\u{00a0}", "a b", "\r\n"] {
        let got: String = trim(&chars_of(text)).into_iter().collect();
        assert_eq!(got, text.trim());
    }
}
