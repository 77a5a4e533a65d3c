//! A plain three-column interval and the text lines it is read from.

use crate::position::{
    coordinate_as_value, standard_column, Field, FieldError, Positioned, StreamError, Value,
};
use crate::text::{
    chars_of, decimal, field_end, field_start, is_skipped, nth_field, parse_decimal, parse_u64,
    push_decimal, string_of, tab_from, trim, trimmed,
};
use vstd::prelude::*;
use vstd::string::StringExecFns;

verus! {

/// An interval with no fields beyond chromosome, start and stop.
pub struct BedInterval {
    chromosome: String,
    start: u64,
    stop: u64,
}

impl BedInterval {
    pub fn new(chromosome: String, start: u64, stop: u64) -> (interval: Self)
        ensures
            interval.chromosome_view() == chromosome@,
            interval.start_view() == start,
            interval.stop_view() == stop,
    {
        BedInterval { chromosome, start, stop }
    }
}

impl Positioned for BedInterval {
    closed spec fn chromosome_view(&self) -> Seq<char> {
        self.chromosome@
    }

    closed spec fn start_view(&self) -> u64 {
        self.start
    }

    closed spec fn stop_view(&self) -> u64 {
        self.stop
    }

    fn chromosome(&self) -> (name: &str) {
        self.chromosome.as_str()
    }

    fn start(&self) -> (start: u64) {
        self.start
    }

    fn stop(&self) -> (stop: u64) {
        self.stop
    }

    /// Columns 0, 1 and 2 are all there is: any other index, and every
    /// name, is refused.
    fn value(&self, field: Field) -> (found: Result<Value, FieldError>)
        ensures
            match field {
                Field::Int(i) => if i < 3 {
                    found is Ok
                } else {
                    found == Err::<Value, FieldError>(FieldError::InvalidFieldIndex(i))
                },
                Field::String(name) => found == Err::<Value, FieldError>(
                    FieldError::InvalidFieldName(name),
                ),
            },
    {
        match field {
            Field::String(name) => Err(FieldError::InvalidFieldName(name)),
            Field::Int(i) => {
                if i == 0 {
                    let mut names: Vec<String> = Vec::new();
                    names.push(self.chromosome.clone());
                    let value = Value::Strings(names);
                    assert(value@ =~= standard_column(self.chromosome@, self.start, self.stop, i)) by {
                        assert(names@.map_values(|s: String| s@) =~= seq![self.chromosome@]);
                    }
                    Ok(value)
                } else if i == 1 {
                    let mut numbers: Vec<i64> = Vec::new();
                    numbers.push(coordinate_as_value(self.start));
                    assert(numbers@ =~= seq![crate::position::coordinate_value(self.start)]);
                    Ok(Value::Ints(numbers))
                } else if i == 2 {
                    let mut numbers: Vec<i64> = Vec::new();
                    numbers.push(coordinate_as_value(self.stop));
                    assert(numbers@ =~= seq![crate::position::coordinate_value(self.stop)]);
                    Ok(Value::Ints(numbers))
                } else {
                    Err(FieldError::InvalidFieldIndex(i))
                }
            },
        }
    }
}

/// The chromosome that a line names: its first tab-separated field, after
/// the white space at the ends of the line is taken off.
pub open spec fn line_chromosome(line: Seq<char>) -> Seq<char> {
    let text = trimmed(line);
    text.subrange(0, tab_from(text, 0))
}

/// Start and stop of a line: its second and third tab-separated fields,
/// if it has them and both are numbers.
pub open spec fn line_coordinates(line: Seq<char>) -> Option<(u64, u64)> {
    let text = trimmed(line);
    match (nth_field(text, 1), nth_field(text, 2)) {
        (Some(start), Some(stop)) => match (parse_u64(start), parse_u64(stop)) {
            (Some(a), Some(b)) => Some((a, b)),
            _ => None,
        },
        _ => None,
    }
}

/// The chromosomes seen, after one more: it is added unless it is the one
/// seen last.
pub open spec fn noted(chroms: Seq<Seq<char>>, name: Seq<char>) -> Seq<Seq<char>> {
    if chroms.len() > 0 && chroms.last() == name {
        chroms
    } else {
        chroms.push(name)
    }
}

/// The diagnostic for a line that holds no interval.
pub open spec fn bad_line_message(line_number: u64) -> Seq<char> {
    "bed_ex line "@ + decimal(line_number as nat) + ": no interval"@
}

/// What the caller is to do after a read.
pub enum LineStep {
    /// The input has ended.
    End,
    /// The line is empty or a comment: read the next line.
    Skip,
    /// The line holds this interval.
    Interval(BedInterval),
    /// The read failed, or the line holds no interval.
    Failed(StreamError),
}

/// The state of a reader of plain interval lines: how many reads it has
/// counted, and the chromosomes that its intervals have named, each run of
/// equal names noted once.
pub struct BedFile {
    chroms: Vec<String>,
    line_number: u64,
}

impl BedFile {
    /// The chromosomes noted so far, in order.
    pub closed spec fn chroms_view(&self) -> Seq<Seq<char>> {
        self.chroms@.map_values(|s: String| s@)
    }

    /// The number of reads counted so far.
    pub closed spec fn line_count(&self) -> u64 {
        self.line_number
    }

    /// A reader that has read nothing.
    pub fn new() -> (reader: Self)
        ensures
            reader.chroms_view() == Seq::<Seq<char>>::empty(),
            reader.line_count() == 0,
    {
        let reader = BedFile { chroms: Vec::new(), line_number: 0 };
        assert(reader.chroms_view() =~= Seq::<Seq<char>>::empty());
        reader
    }

    /// How many chromosomes have been noted.
    pub fn chromosomes_seen(&self) -> (n: usize)
        ensures
            n == self.chroms_view().len(),
    {
        self.chroms.len()
    }

    /// The number of reads counted so far.
    pub fn line_number(&self) -> (n: u64)
        ensures
            n == self.line_count(),
    {
        self.line_number
    }

    /// `bed_ex:` and the number of reads counted so far.
    pub fn name(&self) -> (name: String)
        ensures
            name@ == "bed_ex:"@ + decimal(self.line_count() as nat),
    {
        let mut name = String::from_str("bed_ex:");
        push_decimal(&mut name, self.line_number);
        name
    }

    /// Reads one line: chromosome, start and stop, separated by tabs, with
    /// the white space at the ends of the line taken off first. An empty
    /// line and a comment hold nothing, which is no error. Any other line
    /// holds an interval, whose chromosome is noted, or is refused as
    /// invalid: where start or stop is missing or is no number.
    pub fn parse_line(&mut self, line: &str) -> (parsed: Result<Option<BedInterval>, StreamError>)
        ensures
            final(self).line_count() == old(self).line_count(),
            is_skipped(trimmed(line@)) ==> (parsed matches Ok(None)) && final(self).chroms_view()
                == old(self).chroms_view(),
            !is_skipped(trimmed(line@)) ==> match line_coordinates(line@) {
                None => (parsed matches Err(StreamError::InvalidData(message)) && message@
                    == bad_line_message(old(self).line_count())) && final(self).chroms_view()
                    == old(self).chroms_view(),
                Some(found) => (parsed matches Ok(Some(interval)) && interval.chromosome_view()
                    == line_chromosome(line@) && interval.start_view() == found.0
                    && interval.stop_view() == found.1) && final(self).chroms_view() == noted(
                    old(self).chroms_view(),
                    line_chromosome(line@),
                ),
            },
    {
        let chars = chars_of(line);
        let text = trim(&chars);
        let n: usize = text.len();
        if n == 0 || text[0] == '#' {
            return Ok(None);
        }
        let e0: usize = field_end(&text, 0);
        assert(field_start(text@, 0) == Some(0int));
        let mut found: Option<(u64, u64)> = None;
        if e0 < n {
            assert(field_start(text@, 1) == Some(e0 + 1));
            let e1: usize = field_end(&text, e0 + 1);
            let start = parse_decimal(&text, e0 + 1, e1);
            if e1 < n {
                assert(field_start(text@, 2) == Some(e1 + 1));
                let e2: usize = field_end(&text, e1 + 1);
                let stop = parse_decimal(&text, e1 + 1, e2);
                found =
                match (start, stop) {
                    (Some(a), Some(b)) => Some((a, b)),
                    _ => None,
                };
            } else {
                assert(field_start(text@, 2) is None);
            }
        } else {
            assert(field_start(text@, 1) is None);
        }
        assert(found == line_coordinates(line@));
        match found {
            None => {
                let mut message = String::from_str("bed_ex line ");
                push_decimal(&mut message, self.line_number);
                message.append(": no interval");
                Err(StreamError::InvalidData(message))
            },
            Some(pair) => {
                let name = string_of(&text, 0, e0);
                let ghost before = self.chroms@;
                let known: usize = self.chroms.len();
                let same = known > 0 && self.chroms[known - 1] == name;
                if !same {
                    let ghost named = name@;
                    self.chroms.push(name);
                    assert(self.chroms@.map_values(|s: String| s@) =~= before.map_values(
                        |s: String| s@,
                    ).push(named));
                }
                let chromosome = self.chroms[self.chroms.len() - 1].clone();
                Ok(Some(BedInterval::new(chromosome, pair.0, pair.1)))
            },
        }
    }

    /// Counts a read and decides what it brought. `read` is what the read
    /// returned, the number of bytes read or an error; `line` is the line
    /// as read.
    ///
    /// No bytes read is the end of the input. Empty lines and comments are
    /// skipped. Any other line holds an interval or fails the stream. When
    /// the count of reads is at its limit the step fails and changes
    /// nothing.
    pub fn step(&mut self, read: Result<usize, StreamError>, line: &str) -> (step: LineStep)
        ensures
            old(self).line_count() == u64::MAX ==> (step matches LineStep::Failed(
                StreamError::InvalidData(_),
            )) && *final(self) == *old(self),
            old(self).line_count() < u64::MAX ==> final(self).line_count() == old(self).line_count()
                + 1,
            old(self).line_count() < u64::MAX ==> match read {
                Err(e) => step == LineStep::Failed(e) && final(self).chroms_view() == old(self).chroms_view(),
                Ok(n) => if n == 0 {
                    step is End && final(self).chroms_view() == old(self).chroms_view()
                } else if is_skipped(trimmed(line@)) {
                    step is Skip && final(self).chroms_view() == old(self).chroms_view()
                } else {
                    match line_coordinates(line@) {
                        None => (step matches LineStep::Failed(StreamError::InvalidData(message))
                            && message@ == bad_line_message(final(self).line_count())) && final(self).chroms_view() == old(self).chroms_view(),
                        Some(found) => (step matches LineStep::Interval(interval)
                            && interval.chromosome_view() == line_chromosome(line@)
                            && interval.start_view() == found.0 && interval.stop_view() == found.1)
                            && final(self).chroms_view() == noted(
                            old(self).chroms_view(),
                            line_chromosome(line@),
                        ),
                    }
                },
            },
    {
        if self.line_number == u64::MAX {
            return LineStep::Failed(StreamError::InvalidData(String::from_str("too many lines")));
        }
        self.line_number = self.line_number + 1;
        match read {
            Err(e) => LineStep::Failed(e),
            Ok(n) => {
                if n == 0 {
                    LineStep::End
                } else {
                    match self.parse_line(line) {
                        Ok(None) => LineStep::Skip,
                        Ok(Some(interval)) => LineStep::Interval(interval),
                        Err(e) => LineStep::Failed(e),
                    }
                }
            },
        }
    }
}

} // verus!
