//! Three-column BED records, parsed line by line.
//!
//! Reading the lines is the caller's part. For every read, the caller
//! hands [`BedderBed::step`] what the read returned and the line, without
//! its line ending, and is told what to do next.

use crate::position::{
    coordinate_as_value, coordinate_value, Field, FieldError, Positioned, StreamError, Value,
};
use crate::text::{decimal, is_skipped, nth_field, parse_usize, push_decimal};
use noodles::bed::record::ParseError;
use noodles::bed::Record;
use vstd::prelude::*;
use vstd::string::StringExecFns;
use vstd::string::StrSliceExecFns;

verus! {

/// `bed::record::ParseError` of noodles, the error of its BED line parser.
/// Nothing is known of what is in one.
#[verifier::external_type_specification]
#[verifier::external_body]
pub struct ExParseError(noodles::bed::record::ParseError);

/// The three standard fields of a BED line: the reference sequence name,
/// the start position and the end position, both counted from one, or
/// `None` where the line is no record. The fields of a line are separated
/// by tabs. The first is the name. The second is the zero-based start, a
/// number, and the start position is one more. The third is the end
/// position, a number that is not zero. Further fields are not looked at.
pub open spec fn bed3_fields(line: Seq<char>) -> Option<(Seq<char>, usize, usize)> {
    match (nth_field(line, 0), nth_field(line, 1), nth_field(line, 2)) {
        (Some(name), Some(start), Some(end)) => match (parse_usize(start), parse_usize(end)) {
            (Some(a), Some(b)) => if a < usize::MAX && b >= 1 {
                Some((name, (a + 1) as usize, b))
            } else {
                None
            },
            _ => None,
        },
        _ => None,
    }
}

/// Parses a line as a three-column BED record, with `Record::<3>::from_str`
/// of noodles, and hands out what the record's `reference_sequence_name`,
/// `start_position` and `end_position` return. The claim is that the
/// parser does what [`bed3_fields`] says: it splits the line at tabs,
/// reads the second field with `usize::from_str` and adds one, reads the
/// third with `NonZeroUsize::from_str`, and fails where a field is missing
/// or is no such number.
#[verifier::external_body]
fn parse_record(line: &str) -> (parsed: Result<(String, usize, usize), ParseError>)
    ensures
        match parsed {
            Ok(fields) => bed3_fields(line@) == Some((fields.0@, fields.1, fields.2)),
            Err(_) => bed3_fields(line@) is None,
        },
{
    match line.parse::<Record<3>>() {
        Ok(r) => Ok(
            (
                r.reference_sequence_name().to_string(),
                r.start_position().get(),
                r.end_position().get(),
            ),
        ),
        Err(e) => Err(e),
    }
}

/// Words a `ParseError` of noodles through its `Debug` form. Nothing is
/// claimed of the text.
#[verifier::external_body]
fn describe_parse_error(error: &ParseError) -> (message: String) {
    format!("{:?}", error)
}

/// How the diagnostic for a line that is no record begins: with the number
/// of the line and the line itself.
pub open spec fn parse_error_prefix(line_number: u64, line: Seq<char>) -> Seq<char> {
    "line#"@ + decimal(line_number as nat) + ":"@ + line + " error: "@
}

/// The diagnostic for a line that is no record: [`parse_error_prefix`],
/// then what the parser said.
fn parse_error_message(line_number: u64, line: &str, error: &ParseError) -> (message: String)
    ensures
        parse_error_prefix(line_number, line@).is_prefix_of(message@),
{
    let mut message = String::from_str("line#");
    push_decimal(&mut message, line_number);
    message.append(":");
    message.append(line);
    message.append(" error: ");
    let ghost prefix = message@;
    let detail = describe_parse_error(error);
    message.append(detail.as_str());
    assert(message@.subrange(0, prefix.len() as int) =~= prefix);
    message
}

/// A three-column BED record. Its positions are kept as the BED parser
/// has them, counted from one; the interval it stands for is zero-based
/// and half-open.
pub struct BedRecord {
    reference_sequence_name: String,
    start_position: usize,
    end_position: usize,
}

impl BedRecord {
    #[verifier::type_invariant]
    spec fn one_based(&self) -> bool {
        self.start_position >= 1 && self.end_position >= 1
    }

    /// A record from its three fields. Positions are counted from one:
    /// zero is no position.
    pub fn new(reference_sequence_name: String, start_position: usize, end_position: usize) -> (record:
        Option<Self>)
        ensures
            start_position == 0 || end_position == 0 <==> record is None,
            record matches Some(r) ==> r.chromosome_view() == reference_sequence_name@
                && r.start_view() == start_position - 1 && r.stop_view() == end_position,
    {
        if start_position == 0 || end_position == 0 {
            None
        } else {
            Some(BedRecord { reference_sequence_name, start_position, end_position })
        }
    }
}

impl Positioned for BedRecord {
    closed spec fn chromosome_view(&self) -> Seq<char> {
        self.reference_sequence_name@
    }

    closed spec fn start_view(&self) -> u64 {
        (self.start_position - 1) as u64
    }

    closed spec fn stop_view(&self) -> u64 {
        self.end_position as u64
    }

    fn chromosome(&self) -> (name: &str) {
        self.reference_sequence_name.as_str()
    }

    fn start(&self) -> (start: u64) {
        proof {
            use_type_invariant(self);
        }
        (self.start_position - 1) as u64
    }

    fn stop(&self) -> (stop: u64) {
        self.end_position as u64
    }

    /// Columns 0, 1 and 2 are all there is: any other index, and every
    /// name, is refused.
    fn value(&self, field: Field) -> (found: Result<Value, FieldError>)
        ensures
            match field {
                Field::Int(i) => if i < 3 {
                    found is Ok
                } else {
                    found == Err::<Value, FieldError>(FieldError::InvalidFieldIndex(i))
                },
                Field::String(name) => found == Err::<Value, FieldError>(
                    FieldError::InvalidFieldName(name),
                ),
            },
    {
        match field {
            Field::String(name) => Err(FieldError::InvalidFieldName(name)),
            Field::Int(i) => {
                if i == 0 {
                    let mut names: Vec<String> = Vec::new();
                    names.push(self.reference_sequence_name.clone());
                    assert(names@.map_values(|s: String| s@) =~= seq![self.chromosome_view()]);
                    Ok(Value::Strings(names))
                } else if i == 1 {
                    let mut numbers: Vec<i64> = Vec::new();
                    numbers.push(coordinate_as_value(self.start()));
                    assert(numbers@ =~= seq![coordinate_value(self.start_view())]);
                    Ok(Value::Ints(numbers))
                } else if i == 2 {
                    let mut numbers: Vec<i64> = Vec::new();
                    numbers.push(coordinate_as_value(self.stop()));
                    assert(numbers@ =~= seq![coordinate_value(self.stop_view())]);
                    Ok(Value::Ints(numbers))
                } else {
                    Err(FieldError::InvalidFieldIndex(i))
                }
            },
        }
    }
}

/// The record that was read last.
pub struct Last {
    pub chrom: String,
    pub start: u64,
    pub stop: u64,
}

/// What the caller is to do after a read.
pub enum Step {
    /// The input has ended.
    End,
    /// The line holds no record: read the next line.
    Skip,
    /// The line holds this record.
    Record(BedRecord),
    /// The read failed, or the line is no record.
    Failed(StreamError),
}

/// The state of a reader of BED lines: how many reads it has counted, and
/// the record it has seen last.
pub struct BedderBed {
    last_record: Option<Last>,
    line_number: u64,
}

impl BedderBed {
    /// The number of reads counted so far.
    pub closed spec fn line_count(&self) -> u64 {
        self.line_number
    }

    /// Chromosome, start and stop of the last record.
    pub closed spec fn last_view(&self) -> Option<(Seq<char>, u64, u64)> {
        match self.last_record {
            Some(last) => Some((last.chrom@, last.start, last.stop)),
            None => None,
        }
    }

    /// A reader that has read nothing.
    pub fn new() -> (reader: Self)
        ensures
            reader.line_count() == 0,
            reader.last_view() is None,
    {
        BedderBed { last_record: None, line_number: 0 }
    }

    /// The number of reads counted so far.
    pub fn line_number(&self) -> (n: u64)
        ensures
            n == self.line_count(),
    {
        self.line_number
    }

    /// The record that was read last.
    pub fn last_record(&self) -> (last: Option<&Last>)
        ensures
            match last {
                Some(l) => self.last_view() == Some((l.chrom@, l.start, l.stop)),
                None => self.last_view() is None,
            },
    {
        self.last_record.as_ref()
    }

    /// `bed:` and the number of reads counted so far.
    pub fn name(&self) -> (name: String)
        ensures
            name@ == "bed:"@ + decimal(self.line_count() as nat),
    {
        let mut name = String::from_str("bed:");
        push_decimal(&mut name, self.line_number);
        name
    }

    /// Takes the three fields of a parsed line, positions counted from
    /// one, remembers them as the last record and makes the record. Zero
    /// is no position: nothing is made of it and nothing changes.
    pub fn accept(&mut self, name: String, start_position: usize, end_position: usize) -> (record:
        Option<BedRecord>)
        ensures
            final(self).line_count() == old(self).line_count(),
            start_position == 0 || end_position == 0 <==> record is None,
            record is None ==> final(self).last_view() == old(self).last_view(),
            record matches Some(r) ==> r.chromosome_view() == name@ && r.start_view()
                == start_position - 1 && r.stop_view() == end_position && final(self).last_view()
                == Some((name@, (start_position - 1) as u64, end_position as u64)),
    {
        if start_position == 0 || end_position == 0 {
            return None;
        }
        let start: u64 = (start_position - 1) as u64;
        let stop: u64 = end_position as u64;
        let keep = match &self.last_record {
            Some(last) => last.chrom == name,
            None => false,
        };
        if keep {
            let chrom = self.last_record.take().unwrap().chrom;
            self.last_record = Some(Last { chrom, start, stop });
        } else {
            self.last_record = Some(Last { chrom: name.clone(), start, stop });
        }
        Some(BedRecord { reference_sequence_name: name, start_position, end_position })
    }

    /// Counts a read and decides what it brought. `read` is what the read
    /// returned, the number of bytes read or an error; `line` is the line
    /// without its line ending.
    ///
    /// No bytes read is the end of the input. Empty lines and comments are
    /// skipped. Any other line is parsed as a three-column BED record; its
    /// start is turned from a position counted from one into a zero-based
    /// coordinate. A line that is no record fails with a diagnostic that
    /// begins with the number of the line and the line. When the count of reads is at its limit the step fails
    /// and changes nothing.
    pub fn step(&mut self, read: Result<usize, StreamError>, line: &str) -> (step: Step)
        ensures
            old(self).line_count() == u64::MAX ==> (step matches Step::Failed(
                StreamError::InvalidData(_),
            )) && *final(self) == *old(self),
            old(self).line_count() < u64::MAX ==> final(self).line_count() == old(self).line_count()
                + 1,
            old(self).line_count() < u64::MAX ==> match read {
                Err(e) => step == Step::Failed(e) && final(self).last_view() == old(self).last_view(),
                Ok(n) => if n == 0 {
                    step is End && final(self).last_view() == old(self).last_view()
                } else if is_skipped(line@) {
                    step is Skip && final(self).last_view() == old(self).last_view()
                } else {
                    match bed3_fields(line@) {
                        None => (step matches Step::Failed(StreamError::InvalidData(message))
                            && parse_error_prefix(final(self).line_count(), line@).is_prefix_of(
                            message@,
                        )) && final(self).last_view() == old(self).last_view(),
                        Some(fields) => (step matches Step::Record(record)
                            && record.chromosome_view() == fields.0 && record.start_view()
                            == fields.1 - 1 && record.stop_view() == fields.2) && final(self).last_view() == Some(
                            (fields.0, (fields.1 - 1) as u64, fields.2 as u64),
                        ),
                    }
                },
            },
    {
        if self.line_number == u64::MAX {
            return Step::Failed(StreamError::InvalidData(String::from_str("too many lines")));
        }
        self.line_number = self.line_number + 1;
        match read {
            Err(e) => Step::Failed(e),
            Ok(n) => {
                if n == 0 {
                    Step::End
                } else if line.is_empty() || line.get_char(0) == '#' {
                    Step::Skip
                } else {
                    match parse_record(line) {
                        Err(e) => Step::Failed(
                            StreamError::InvalidData(
                                parse_error_message(self.line_number, line, &e),
                            ),
                        ),
                        Ok(fields) => match self.accept(fields.0, fields.1, fields.2) {
                            Some(record) => Step::Record(record),
                            None => Step::Failed(
                                StreamError::InvalidData(String::from_str("position zero")),
                            ),
                        },
                    }
                }
            },
        }
    }
}

} // verus!
