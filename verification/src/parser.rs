//! The CSV dialect of the parse endpoint, and its parser.
//!
//! A body is a sequence of records. A record is a sequence of fields
//! separated by commas and ends at a line feed, at a carriage return
//! followed by a line feed, or where the body ends. A field is either
//! plain, holding no comma, quote, line feed or carriage return, or
//! enclosed in double quotes, where it may hold any byte and a quote is
//! written twice. The first record names the columns; every record after
//! it is a data row with one field for each column.

use crate::bytes::copy_range;
use vstd::prelude::*;

verus! {

pub const COMMA: u8 = 0x2c;

pub const QUOTE: u8 = 0x22;

pub const LINE_FEED: u8 = 0x0a;

pub const CARRIAGE_RETURN: u8 = 0x0d;

/// Why a body is not a document. Offsets count bytes from the start of the
/// body.
#[derive(Clone, Copy, Debug, PartialEq, Eq, Structural)]
pub enum ParseError {
    /// The body holds no record, so no columns.
    Empty,
    /// The quoted field opened at `at` is never closed.
    UnterminatedQuote { at: usize },
    /// A quote stands at `at`, inside a plain field.
    UnexpectedQuote { at: usize },
    /// The byte at `at` follows a closing quote and is no separator.
    UnexpectedByteAfterQuote { at: usize },
    /// The carriage return at `at`, outside quotes, has no line feed after it.
    BareCarriageReturn { at: usize },
    /// Record number `row`, the column names being record 0, has `found`
    /// fields where the columns call for `expected`.
    RaggedRow { row: usize, expected: usize, found: usize },
}

/// Whether a byte may stand in a plain field.
pub open spec fn is_plain(b: u8) -> bool {
    b != COMMA && b != QUOTE && b != LINE_FEED && b != CARRIAGE_RETURN
}

/// Where the run of plain bytes that starts at `i` ends.
pub open spec fn plain_end(s: Seq<u8>, i: int) -> int
    decreases s.len() - i,
{
    if 0 <= i < s.len() && is_plain(s[i]) {
        plain_end(s, i + 1)
    } else {
        i
    }
}

/// The separator at `j`, if one stands there: whether the record goes on
/// after it (a comma) or is over (a line break, or the end of the body),
/// and where the next field starts.
pub open spec fn separator(s: Seq<u8>, j: int) -> Option<(bool, int)> {
    if j >= s.len() {
        Some((false, j))
    } else if s[j] == COMMA {
        Some((true, j + 1))
    } else if s[j] == LINE_FEED {
        Some((false, j + 1))
    } else if s[j] == CARRIAGE_RETURN && j + 1 < s.len() && s[j + 1] == LINE_FEED {
        Some((false, j + 2))
    } else {
        None
    }
}

/// Puts `prefix` before the content of a quoted scan.
pub open spec fn prefixed(prefix: Seq<u8>, scan: Option<(Seq<u8>, int)>) -> Option<(Seq<u8>, int)> {
    match scan {
        Some((content, after)) => Some((prefix + content, after)),
        None => None,
    }
}

/// Reads quoted content from `i`, just after the opening quote: the
/// content with doubled quotes undone, and the index after the closing
/// quote. `None` where the body ends before the quote closes.
pub open spec fn quoted(s: Seq<u8>, i: int) -> Option<(Seq<u8>, int)>
    decreases s.len() - i,
    when 0 <= i
{
    if i >= s.len() {
        None
    } else if s[i] != QUOTE {
        prefixed(seq![s[i]], quoted(s, i + 1))
    } else if i + 1 < s.len() && s[i + 1] == QUOTE {
        prefixed(seq![QUOTE], quoted(s, i + 2))
    } else {
        Some((Seq::empty(), i + 1))
    }
}

/// A field as read: its content, whether the record goes on after it, and
/// where reading resumes.
pub struct FieldScan {
    pub content: Seq<u8>,
    pub more: bool,
    pub next: int,
}

/// Reads the field that starts at `i`.
pub open spec fn field(s: Seq<u8>, i: int) -> Result<FieldScan, ParseError> {
    if 0 <= i < s.len() && s[i] == QUOTE {
        match quoted(s, i + 1) {
            None => Err(ParseError::UnterminatedQuote { at: i as usize }),
            Some((content, after)) => match separator(s, after) {
                Some((more, next)) => Ok(FieldScan { content, more, next }),
                None => Err(ParseError::UnexpectedByteAfterQuote { at: after as usize }),
            },
        }
    } else {
        let j = plain_end(s, i);
        match separator(s, j) {
            Some((more, next)) => Ok(FieldScan { content: s.subrange(i, j), more, next }),
            None => if s[j] == QUOTE {
                Err(ParseError::UnexpectedQuote { at: j as usize })
            } else {
                Err(ParseError::BareCarriageReturn { at: j as usize })
            },
        }
    }
}

/// The run of plain bytes from `i` stays inside the body and stops at its
/// end or at a byte that is not plain.
pub proof fn lemma_plain_end(s: Seq<u8>, i: int)
    requires
        0 <= i <= s.len(),
    ensures
        i <= plain_end(s, i) <= s.len(),
        plain_end(s, i) < s.len() ==> !is_plain(s[plain_end(s, i)]),
        forall|k: int| i <= k < plain_end(s, i) ==> is_plain(#[trigger] s[k]),
    decreases s.len() - i,
{
    if i < s.len() && is_plain(s[i]) {
        lemma_plain_end(s, i + 1);
    }
}

/// Quoted content that closes does so inside the body, after at least the
/// closing quote.
pub proof fn lemma_quoted(s: Seq<u8>, i: int)
    requires
        0 <= i <= s.len(),
    ensures
        quoted(s, i) matches Some((_, after)) ==> i < after <= s.len(),
    decreases s.len() - i,
{
    if i < s.len() {
        if s[i] != QUOTE {
            lemma_quoted(s, i + 1);
        } else if i + 1 < s.len() && s[i + 1] == QUOTE {
            lemma_quoted(s, i + 2);
        }
    }
}

/// A field that was read ends inside the body, and past its start unless
/// the body ended there.
pub proof fn lemma_field(s: Seq<u8>, i: int)
    requires
        0 <= i <= s.len(),
    ensures
        field(s, i) matches Ok(f) ==> i <= f.next <= s.len() && (f.more ==> i < f.next) && (i
            < s.len() ==> i < f.next),
{
    if i < s.len() && s[i] == QUOTE {
        lemma_quoted(s, i + 1);
    } else {
        lemma_plain_end(s, i);
    }
}

/// Finds [`plain_end`].
fn scan_plain(body: &[u8], i: usize) -> (j: usize)
    requires
        i <= body.len(),
    ensures
        j == plain_end(body@, i as int),
        i <= j <= body.len(),
{
    let mut j: usize = i;
    while j < body.len() && body[j] != COMMA && body[j] != QUOTE && body[j] != LINE_FEED && body[j]
        != CARRIAGE_RETURN
        invariant
            i <= j <= body.len(),
            plain_end(body@, i as int) == plain_end(body@, j as int),
        decreases body.len() - j,
    {
        j += 1;
    }
    j
}

/// Finds [`separator`].
fn scan_separator(body: &[u8], j: usize) -> (found: Option<(bool, usize)>)
    requires
        j <= body.len(),
    ensures
        match found {
            Some((more, next)) => separator(body@, j as int) == Some((more, next as int)) && j
                <= next <= body.len(),
            None => separator(body@, j as int) is None && j < body.len(),
        },
{
    if j >= body.len() {
        Some((false, j))
    } else if body[j] == COMMA {
        Some((true, j + 1))
    } else if body[j] == LINE_FEED {
        Some((false, j + 1))
    } else if body[j] == CARRIAGE_RETURN && j + 1 < body.len() && body[j + 1] == LINE_FEED {
        Some((false, j + 2))
    } else {
        None
    }
}

/// Reads [`quoted`] content.
fn scan_quoted(body: &[u8], start: usize) -> (found: Option<(Vec<u8>, usize)>)
    requires
        start <= body.len(),
    ensures
        match found {
            Some((content, after)) => quoted(body@, start as int) == Some((content@, after as int))
                && start < after <= body.len(),
            None => quoted(body@, start as int) is None,
        },
{
    let mut content: Vec<u8> = Vec::new();
    let mut i: usize = start;
    assert(prefixed(content@, quoted(body@, i as int)) == quoted(body@, start as int)) by {
        match quoted(body@, start as int) {
            Some((c, _)) => assert(content@ + c =~= c),
            None => {},
        }
    }
    while i < body.len()
        invariant
            start <= i <= body.len(),
            quoted(body@, start as int) == prefixed(content@, quoted(body@, i as int)),
        decreases body.len() - i,
    {
        let ghost before = content@;
        if body[i] != QUOTE {
            content.push(body[i]);
            proof {
                match quoted(body@, i + 1) {
                    Some((c, _)) => assert(before + (seq![body@[i as int]] + c) =~= content@ + c),
                    None => {},
                }
            }
            i += 1;
        } else if i + 1 < body.len() && body[i + 1] == QUOTE {
            content.push(QUOTE);
            proof {
                match quoted(body@, i + 2) {
                    Some((c, _)) => assert(before + (seq![QUOTE] + c) =~= content@ + c),
                    None => {},
                }
            }
            i += 2;
        } else {
            assert(content@ + Seq::<u8>::empty() =~= content@);
            return Some((content, i + 1));
        }
    }
    None
}

/// Reads the [`field`] that starts at `i`.
fn scan_field(body: &[u8], i: usize) -> (found: Result<(Vec<u8>, bool, usize), ParseError>)
    requires
        i <= body.len(),
    ensures
        match found {
            Ok((content, more, next)) => field(body@, i as int) == Ok::<FieldScan, ParseError>(
                FieldScan { content: content@, more, next: next as int },
            ) && i <= next <= body.len(),
            Err(e) => field(body@, i as int) == Err::<FieldScan, ParseError>(e),
        },
{
    if i < body.len() && body[i] == QUOTE {
        match scan_quoted(body, i + 1) {
            None => Err(ParseError::UnterminatedQuote { at: i }),
            Some((content, after)) => match scan_separator(body, after) {
                Some((more, next)) => Ok((content, more, next)),
                None => Err(ParseError::UnexpectedByteAfterQuote { at: after }),
            },
        }
    } else {
        let j: usize = scan_plain(body, i);
        proof {
            lemma_plain_end(body@, i as int);
        }
        match scan_separator(body, j) {
            Some((more, next)) => Ok((copy_range(body, i, j), more, next)),
            None => if body[j] == QUOTE {
                Err(ParseError::UnexpectedQuote { at: j })
            } else {
                Err(ParseError::BareCarriageReturn { at: j })
            },
        }
    }
}

/// A record as read: its fields, and where reading resumes.
pub struct RecordScan {
    pub fields: Seq<Seq<u8>>,
    pub next: int,
}

/// Reads the record that starts at `i`: fields up to the first one that no
/// comma follows.
pub open spec fn record(s: Seq<u8>, i: int) -> Result<RecordScan, ParseError>
    decreases s.len() - i,
    when 0 <= i <= s.len()
{
    match field(s, i) {
        Err(e) => Err(e),
        Ok(f) => if f.more {
            proof {
                lemma_field(s, i);
            }
            match record(s, f.next) {
                Err(e) => Err(e),
                Ok(rest) => Ok(
                    RecordScan { fields: seq![f.content] + rest.fields, next: rest.next },
                ),
            }
        } else {
            Ok(RecordScan { fields: seq![f.content], next: f.next })
        },
    }
}

/// Reads the records from `i` to the end of the body. A line break that
/// ends the body ends the last record and starts no further one.
pub open spec fn records(s: Seq<u8>, i: int) -> Result<Seq<Seq<Seq<u8>>>, ParseError>
    decreases s.len() - i,
    when 0 <= i
{
    if i >= s.len() {
        Ok(Seq::empty())
    } else {
        match record(s, i) {
            Err(e) => Err(e),
            Ok(r) => {
                proof {
                    lemma_record(s, i);
                }
                match records(s, r.next) {
                    Err(e) => Err(e),
                    Ok(rest) => Ok(seq![r.fields] + rest),
                }
            },
        }
    }
}

/// A record that was read holds at least one field and ends inside the
/// body, past its start unless the body ended there.
pub proof fn lemma_record(s: Seq<u8>, i: int)
    requires
        0 <= i <= s.len(),
    ensures
        record(s, i) matches Ok(r) ==> r.fields.len() >= 1 && i <= r.next <= s.len() && (i
            < s.len() ==> i < r.next),
    decreases s.len() - i,
{
    lemma_field(s, i);
    if let Ok(f) = field(s, i) {
        if f.more {
            lemma_record(s, f.next);
        }
    }
}

/// A document: the column names, and the data rows under them.
pub struct Document {
    pub columns: Seq<Seq<u8>>,
    pub rows: Seq<Seq<Seq<u8>>>,
}

impl Document {
    /// Every row has one field for each column.
    pub open spec fn rectangular(self) -> bool {
        forall|k: int| 0 <= k < self.rows.len() ==> (#[trigger] self.rows[k]).len()
            == self.columns.len()
    }
}

/// The index of the first record at or after `from` whose number of fields
/// is not `width`.
pub open spec fn ragged_from(list: Seq<Seq<Seq<u8>>>, width: nat, from: int) -> Option<int>
    decreases list.len() - from,
    when 0 <= from
{
    if from >= list.len() {
        None
    } else if list[from].len() != width {
        Some(from)
    } else {
        ragged_from(list, width, from + 1)
    }
}

/// Makes a document of records: the first names the columns, the others
/// are the rows, each as wide as the first.
pub open spec fn document(list: Seq<Seq<Seq<u8>>>) -> Result<Document, ParseError> {
    if list.len() == 0 {
        Err(ParseError::Empty)
    } else {
        match ragged_from(list, list[0].len(), 1) {
            Some(k) => Err(
                ParseError::RaggedRow {
                    row: k as usize,
                    expected: list[0].len() as usize,
                    found: list[k].len() as usize,
                },
            ),
            None => Ok(Document { columns: list[0], rows: list.drop_first() }),
        }
    }
}

/// What a body parses to. Faults in the text are found before faults in
/// the shape: a body with a quote left open is answered as such even if
/// an earlier row is ragged.
pub open spec fn parse(body: Seq<u8>) -> Result<Document, ParseError> {
    match records(body, 0) {
        Err(e) => Err(e),
        Ok(list) => document(list),
    }
}

/// What a row of fields holds.
pub open spec fn cells(row: Seq<Vec<u8>>) -> Seq<Seq<u8>> {
    row.map_values(|f: Vec<u8>| f@)
}

/// What a list of rows holds.
pub open spec fn grid(rows: Seq<Vec<Vec<u8>>>) -> Seq<Seq<Seq<u8>>> {
    rows.map_values(|r: Vec<Vec<u8>>| cells(r@))
}

/// Puts `prefix` before the fields of a record scan.
spec fn with_fields(prefix: Seq<Seq<u8>>, scan: Result<RecordScan, ParseError>) -> Result<
    RecordScan,
    ParseError,
> {
    match scan {
        Ok(r) => Ok(RecordScan { fields: prefix + r.fields, next: r.next }),
        Err(e) => Err(e),
    }
}

/// Puts `prefix` before the records of a scan.
spec fn with_records(
    prefix: Seq<Seq<Seq<u8>>>,
    scan: Result<Seq<Seq<Seq<u8>>>, ParseError>,
) -> Result<Seq<Seq<Seq<u8>>>, ParseError> {
    match scan {
        Ok(list) => Ok(prefix + list),
        Err(e) => Err(e),
    }
}

/// Reads the [`record`] that starts at `start`.
fn scan_record(body: &[u8], start: usize) -> (found: Result<(Vec<Vec<u8>>, usize), ParseError>)
    requires
        start <= body.len(),
    ensures
        match found {
            Ok((fields, next)) => record(body@, start as int) == Ok::<RecordScan, ParseError>(
                RecordScan { fields: cells(fields@), next: next as int },
            ) && start <= next <= body.len(),
            Err(e) => record(body@, start as int) == Err::<RecordScan, ParseError>(e),
        },
{
    let mut fields: Vec<Vec<u8>> = Vec::new();
    let mut i: usize = start;
    assert(with_fields(cells(fields@), record(body@, i as int)) == record(body@, start as int)) by {
        if let Ok(r) = record(body@, start as int) {
            assert(cells(fields@) + r.fields =~= r.fields);
        }
    }
    loop
        invariant
            start <= i <= body.len(),
            record(body@, start as int) == with_fields(cells(fields@), record(body@, i as int)),
        decreases body.len() - i,
    {
        let ghost before = cells(fields@);
        match scan_field(body, i) {
            Err(e) => {
                return Err(e);
            },
            Ok((content, more, next)) => {
                proof {
                    lemma_field(body@, i as int);
                }
                fields.push(content);
                assert(cells(fields@) =~= before.push(content@));
                if more {
                    proof {
                        if let Ok(rest) = record(body@, next as int) {
                            assert(before + (seq![content@] + rest.fields) =~= cells(fields@)
                                + rest.fields);
                        }
                    }
                    i = next;
                } else {
                    assert(before + seq![content@] =~= cells(fields@));
                    return Ok((fields, next));
                }
            },
        }
    }
}

/// Reads the [`records`] of a body.
fn scan_records(body: &[u8]) -> (found: Result<Vec<Vec<Vec<u8>>>, ParseError>)
    ensures
        match found {
            Ok(list) => records(body@, 0) == Ok::<Seq<Seq<Seq<u8>>>, ParseError>(grid(list@)),
            Err(e) => records(body@, 0) == Err::<Seq<Seq<Seq<u8>>>, ParseError>(e),
        },
{
    let mut list: Vec<Vec<Vec<u8>>> = Vec::new();
    let mut i: usize = 0;
    assert(with_records(grid(list@), records(body@, 0)) == records(body@, 0)) by {
        if let Ok(l) = records(body@, 0) {
            assert(grid(list@) + l =~= l);
        }
    }
    while i < body.len()
        invariant
            i <= body.len(),
            records(body@, 0) == with_records(grid(list@), records(body@, i as int)),
        decreases body.len() - i,
    {
        let ghost before = grid(list@);
        match scan_record(body, i) {
            Err(e) => {
                return Err(e);
            },
            Ok((fields, next)) => {
                proof {
                    lemma_record(body@, i as int);
                    if let Ok(rest) = records(body@, next as int) {
                        assert(before + (seq![cells(fields@)] + rest) =~= before.push(
                            cells(fields@),
                        ) + rest);
                    }
                }
                list.push(fields);
                assert(grid(list@) =~= before.push(cells(fields@)));
                i = next;
            },
        }
    }
    assert(grid(list@) + Seq::<Seq<Seq<u8>>>::empty() =~= grid(list@));
    Ok(list)
}

/// A parsed body: the column names, and the data rows under them.
#[derive(Clone, Debug, PartialEq, Eq)]
pub struct ParsedDocument {
    pub columns: Vec<Vec<u8>>,
    pub rows: Vec<Vec<Vec<u8>>>,
}

impl View for ParsedDocument {
    type V = Document;

    open spec fn view(&self) -> Document {
        Document { columns: cells(self.columns@), rows: grid(self.rows@) }
    }
}

/// Finds [`ragged_from`] index 1 on.
fn find_ragged(list: &Vec<Vec<Vec<u8>>>, width: usize) -> (found: Option<usize>)
    ensures
        match found {
            Some(k) => ragged_from(grid(list@), width as nat, 1) == Some(k as int) && 1 <= k
                < list.len(),
            None => ragged_from(grid(list@), width as nat, 1) is None,
        },
{
    let mut k: usize = 1;
    while k < list.len()
        invariant
            1 <= k,
            ragged_from(grid(list@), width as nat, 1) == ragged_from(
                grid(list@),
                width as nat,
                k as int,
            ),
        decreases list.len() - k,
    {
        if list[k].len() != width {
            return Some(k);
        }
        k += 1;
    }
    None
}

/// Parses a body as CSV.
pub fn parse_csv(body: &[u8]) -> (outcome: Result<ParsedDocument, ParseError>)
    ensures
        match outcome {
            Ok(doc) => parse(body@) == Ok::<Document, ParseError>(doc@),
            Err(e) => parse(body@) == Err::<Document, ParseError>(e),
        },
{
    let mut list = match scan_records(body) {
        Ok(list) => list,
        Err(e) => {
            return Err(e);
        },
    };
    if list.len() == 0 {
        return Err(ParseError::Empty);
    }
    let width: usize = list[0].len();
    match find_ragged(&list, width) {
        Some(k) => Err(ParseError::RaggedRow { row: k, expected: width, found: list[k].len() }),
        None => {
            let ghost all = grid(list@);
            let columns = list.remove(0);
            assert(grid(list@) =~= all.drop_first());
            Ok(ParsedDocument { columns, rows: list })
        },
    }
}

} // verus!
