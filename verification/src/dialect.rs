//! The ways a document may be written, and what the parser makes of each.
//!
//! A field is written plain, where it holds no comma, quote, line feed or
//! carriage return, or between quotes with each of its quotes doubled. A
//! record is its fields with commas between them. A body is its records,
//! each followed by a line feed, alone or after a carriage return; after
//! the last record the line break may be left out, unless the record is
//! written as nothing at all.

use crate::parser::{
    document, field, is_plain, lemma_field, lemma_plain_end, lemma_record, parse, plain_end,
    quoted, ragged_from, record, records, separator, Document, FieldScan, ParseError, RecordScan,
    CARRIAGE_RETURN, COMMA, LINE_FEED, QUOTE,
};
use vstd::prelude::*;

verus! {

/// Field content with every quote doubled.
pub open spec fn escaped(content: Seq<u8>) -> Seq<u8>
    decreases content.len(),
{
    if content.len() == 0 {
        Seq::empty()
    } else if content[0] == QUOTE {
        seq![QUOTE, QUOTE] + escaped(content.drop_first())
    } else {
        seq![content[0]] + escaped(content.drop_first())
    }
}

/// A field and the way it is written.
pub struct FieldForm {
    pub content: Seq<u8>,
    pub quoted: bool,
}

impl FieldForm {
    /// Only content made of plain bytes may go without quotes.
    pub open spec fn valid(self) -> bool {
        self.quoted || forall|k: int|
            0 <= k < self.content.len() ==> is_plain(#[trigger] self.content[k])
    }

    /// The field as written.
    pub open spec fn text(self) -> Seq<u8> {
        if self.quoted {
            seq![QUOTE] + escaped(self.content) + seq![QUOTE]
        } else {
            self.content
        }
    }
}

/// Fields as written, with commas between them.
pub open spec fn fields_text(fields: Seq<FieldForm>) -> Seq<u8>
    decreases fields.len(),
{
    if fields.len() == 0 {
        Seq::empty()
    } else if fields.len() == 1 {
        fields[0].text()
    } else {
        fields[0].text() + seq![COMMA] + fields_text(fields.drop_first())
    }
}

/// What the fields hold.
pub open spec fn fields_content(fields: Seq<FieldForm>) -> Seq<Seq<u8>> {
    fields.map_values(|f: FieldForm| f.content)
}

/// A record and the way it is written: its fields, and whether a carriage
/// return precedes the line feed that ends it.
pub struct RecordForm {
    pub fields: Seq<FieldForm>,
    pub crlf: bool,
}

impl RecordForm {
    /// A record has at least one field.
    pub open spec fn valid(self) -> bool {
        &&& self.fields.len() >= 1
        &&& forall|k: int| 0 <= k < self.fields.len() ==> (#[trigger] self.fields[k]).valid()
    }

    /// The line break that ends the record.
    pub open spec fn line_break(self) -> Seq<u8> {
        if self.crlf {
            seq![CARRIAGE_RETURN, LINE_FEED]
        } else {
            seq![LINE_FEED]
        }
    }
}

/// Records as written; with `open_end`, the last goes without its line
/// break.
pub open spec fn records_text(list: Seq<RecordForm>, open_end: bool) -> Seq<u8>
    decreases list.len(),
{
    if list.len() == 0 {
        Seq::empty()
    } else if list.len() == 1 && open_end {
        fields_text(list[0].fields)
    } else {
        fields_text(list[0].fields) + list[0].line_break() + records_text(
            list.drop_first(),
            open_end,
        )
    }
}

/// A body and the way it is written.
pub struct BodyForm {
    pub records: Seq<RecordForm>,
    pub open_end: bool,
}

impl BodyForm {
    /// The line break after the last record may be left out only where a
    /// last record exists and is written as at least one byte.
    pub open spec fn valid(self) -> bool {
        &&& forall|k: int| 0 <= k < self.records.len() ==> (#[trigger] self.records[k]).valid()
        &&& self.open_end ==> self.records.len() >= 1 && fields_text(
            self.records.last().fields,
        ).len() >= 1
    }

    /// The body as written.
    pub open spec fn text(self) -> Seq<u8> {
        records_text(self.records, self.open_end)
    }

    /// The records that the body holds.
    pub open spec fn contents(self) -> Seq<Seq<Seq<u8>>> {
        self.records.map_values(|r: RecordForm| fields_content(r.fields))
    }
}

/// The canonical way to write a document: every field quoted, a line feed
/// after every record.
pub open spec fn canonical(doc: Document) -> BodyForm {
    BodyForm {
        records: (seq![doc.columns] + doc.rows).map_values(
            |r: Seq<Seq<u8>>|
                RecordForm {
                    fields: r.map_values(|c: Seq<u8>| FieldForm { content: c, quoted: true }),
                    crlf: false,
                },
        ),
        open_end: false,
    }
}

/// From index `i` on, `s` reads `text`.
pub open spec fn reads(s: Seq<u8>, i: int, text: Seq<u8>) -> bool {
    0 <= i <= s.len() && s.subrange(i, s.len() as int) == text
}

/// What follows a field.
enum Mark {
    Comma,
    LineFeed,
    CarriageReturnLineFeed,
    End,
}

impl Mark {
    spec fn text(self) -> Seq<u8> {
        match self {
            Mark::Comma => seq![COMMA],
            Mark::LineFeed => seq![LINE_FEED],
            Mark::CarriageReturnLineFeed => seq![CARRIAGE_RETURN, LINE_FEED],
            Mark::End => Seq::empty(),
        }
    }

    /// The end of the body is a mark only where nothing follows.
    spec fn fits(self, tail: Seq<u8>) -> bool {
        self is End ==> tail.len() == 0
    }
}

/// Where `s` reads `head + tail` from `i` on, it holds `head` at `i` and
/// reads `tail` after it.
proof fn lemma_reads_on(s: Seq<u8>, i: int, head: Seq<u8>, tail: Seq<u8>)
    requires
        reads(s, i, head + tail),
    ensures
        i + head.len() <= s.len(),
        forall|k: int| 0 <= k < head.len() ==> s[i + k] == #[trigger] head[k],
        reads(s, i + head.len(), tail),
{
    let rest = s.subrange(i, s.len() as int);
    assert(rest.len() == head.len() + tail.len());
    assert forall|k: int| 0 <= k < head.len() implies s[i + k] == #[trigger] head[k] by {
        assert(rest[k] == s[i + k]);
        assert((head + tail)[k] == head[k]);
    }
    let after = s.subrange(i + head.len(), s.len() as int);
    assert forall|k: int| 0 <= k < tail.len() implies after[k] == tail[k] by {
        assert(rest[head.len() + k] == s[i + head.len() + k]);
        assert((head + tail)[head.len() + k] == tail[k]);
    }
    assert(after =~= tail);
}

/// Escaped content followed by a closing quote reads back as the content.
proof fn lemma_quoted_inverts(s: Seq<u8>, i: int, content: Seq<u8>, tail: Seq<u8>)
    requires
        reads(s, i, escaped(content) + seq![QUOTE] + tail),
        tail.len() > 0 ==> tail[0] != QUOTE,
    ensures
        quoted(s, i) == Some((content, i + escaped(content).len() + 1)),
    decreases content.len(),
{
    let text = escaped(content) + seq![QUOTE] + tail;
    if content.len() == 0 {
        assert(text =~= seq![QUOTE] + tail);
        lemma_reads_on(s, i, seq![QUOTE], tail);
        assert(s[i + 0] == seq![QUOTE][0]);
        if i + 1 < s.len() {
            assert(s.subrange(i + 1, s.len() as int)[0] == s[i + 1]);
        }
        assert(content =~= Seq::<u8>::empty());
    } else {
        let shorter = content.drop_first();
        let rest = escaped(shorter) + seq![QUOTE] + tail;
        if content[0] == QUOTE {
            let pair = seq![QUOTE, QUOTE];
            assert(text =~= pair + rest);
            lemma_reads_on(s, i, pair, rest);
            assert(s[i + 0] == pair[0]);
            assert(s[i + 1] == pair[1]);
            lemma_quoted_inverts(s, i + 2, shorter, tail);
            assert(seq![QUOTE] + shorter =~= content);
        } else {
            let one = seq![content[0]];
            assert(text =~= one + rest);
            lemma_reads_on(s, i, one, rest);
            assert(s[i + 0] == one[0]);
            lemma_quoted_inverts(s, i + 1, shorter, tail);
            assert(one + shorter =~= content);
        }
    }
}

/// A run of plain bytes ends where the first byte that is not plain
/// stands, or the body ends.
proof fn lemma_plain_inverts(s: Seq<u8>, i: int, content: Seq<u8>, tail: Seq<u8>)
    requires
        reads(s, i, content + tail),
        forall|k: int| 0 <= k < content.len() ==> is_plain(#[trigger] content[k]),
        tail.len() > 0 ==> !is_plain(tail[0]),
    ensures
        plain_end(s, i) == i + content.len(),
    decreases content.len(),
{
    lemma_reads_on(s, i, content, tail);
    if content.len() == 0 {
        if i < s.len() {
            assert(s.subrange(i, s.len() as int)[0] == s[i]);
        }
    } else {
        let shorter = content.drop_first();
        let one = seq![content[0]];
        assert(s[i + 0] == content[0]);
        assert(content + tail =~= one + (shorter + tail));
        lemma_reads_on(s, i, one, shorter + tail);
        assert forall|k: int| 0 <= k < shorter.len() implies is_plain(#[trigger] shorter[k]) by {
            assert(shorter[k] == content[k + 1]);
        }
        lemma_plain_inverts(s, i + 1, shorter, tail);
    }
}

/// The separator that a mark is read as.
proof fn lemma_mark_reads(s: Seq<u8>, j: int, mark: Mark, tail: Seq<u8>)
    requires
        reads(s, j, mark.text() + tail),
        mark.fits(tail),
    ensures
        separator(s, j) == Some((mark is Comma, j + mark.text().len())),
        reads(s, j + mark.text().len(), tail),
{
    lemma_reads_on(s, j, mark.text(), tail);
    match mark {
        Mark::Comma => {
            assert(s[j + 0] == mark.text()[0]);
        },
        Mark::LineFeed => {
            assert(s[j + 0] == mark.text()[0]);
        },
        Mark::CarriageReturnLineFeed => {
            assert(s[j + 0] == mark.text()[0]);
            assert(s[j + 1] == mark.text()[1]);
        },
        Mark::End => {},
    }
}

/// A field written in either way, with a mark after it, is read as the
/// field.
proof fn lemma_field_reads(s: Seq<u8>, i: int, form: FieldForm, mark: Mark, tail: Seq<u8>)
    requires
        form.valid(),
        mark.fits(tail),
        reads(s, i, form.text() + mark.text() + tail),
    ensures
        field(s, i) == Ok::<FieldScan, ParseError>(
            FieldScan {
                content: form.content,
                more: mark is Comma,
                next: i + form.text().len() + mark.text().len(),
            },
        ),
        reads(s, i + form.text().len() + mark.text().len(), tail),
{
    let content = form.content;
    let rest = mark.text() + tail;
    assert(rest.len() > 0 ==> rest[0] == mark.text()[0]);
    assert(form.text() + mark.text() + tail =~= form.text() + rest);
    lemma_reads_on(s, i, form.text(), rest);
    let after = i + form.text().len();
    lemma_mark_reads(s, after, mark, tail);
    if form.quoted {
        let inner = escaped(content) + seq![QUOTE] + rest;
        assert(form.text() + rest =~= seq![QUOTE] + inner);
        lemma_reads_on(s, i, seq![QUOTE], inner);
        assert(s[i + 0] == seq![QUOTE][0]);
        lemma_quoted_inverts(s, i + 1, content, rest);
    } else {
        lemma_plain_inverts(s, i, content, rest);
        if content.len() > 0 {
            assert(s[i + 0] == content[0]);
        } else if i < s.len() {
            assert(s.subrange(i, s.len() as int)[0] == s[i]);
        }
        assert(s.subrange(i, after) =~= content);
    }
}

/// A record written in any way, with a line break or the end of the body
/// after it, is read as the record.
proof fn lemma_record_reads(s: Seq<u8>, i: int, fields: Seq<FieldForm>, stop: Mark, tail: Seq<u8>)
    requires
        fields.len() >= 1,
        forall|k: int| 0 <= k < fields.len() ==> (#[trigger] fields[k]).valid(),
        stop !is Comma,
        stop.fits(tail),
        reads(s, i, fields_text(fields) + stop.text() + tail),
    ensures
        record(s, i) == Ok::<RecordScan, ParseError>(
            RecordScan {
                fields: fields_content(fields),
                next: i + fields_text(fields).len() + stop.text().len(),
            },
        ),
        reads(s, i + fields_text(fields).len() + stop.text().len(), tail),
    decreases fields.len(),
{
    let first = fields[0];
    if fields.len() == 1 {
        lemma_field_reads(s, i, first, stop, tail);
        assert(seq![first.content] =~= fields_content(fields));
    } else {
        let others = fields.drop_first();
        let rest = fields_text(others) + stop.text() + tail;
        assert(fields_text(fields) + stop.text() + tail =~= first.text() + Mark::Comma.text()
            + rest);
        lemma_field_reads(s, i, first, Mark::Comma, rest);
        assert forall|k: int| 0 <= k < others.len() implies (#[trigger] others[k]).valid() by {
            assert(others[k] == fields[k + 1]);
        }
        lemma_record_reads(s, i + first.text().len() + 1, others, stop, tail);
        assert(seq![first.content] + fields_content(others) =~= fields_content(fields));
    }
}

/// A body written in any way is read as its records.
proof fn lemma_records_read(s: Seq<u8>, i: int, list: Seq<RecordForm>, open_end: bool)
    requires
        (BodyForm { records: list, open_end }).valid(),
        reads(s, i, records_text(list, open_end)),
    ensures
        records(s, i) == Ok::<Seq<Seq<Seq<u8>>>, ParseError>(
            (BodyForm { records: list, open_end }).contents(),
        ),
    decreases list.len(),
{
    let contents = (BodyForm { records: list, open_end }).contents();
    if list.len() == 0 {
        assert(s.subrange(i, s.len() as int).len() == 0);
        assert(contents =~= Seq::<Seq<Seq<u8>>>::empty());
    } else {
        let first = list[0];
        let others = list.drop_first();
        assert(first.valid());
        if list.len() == 1 && open_end {
            let text = fields_text(first.fields);
            assert(list.last() == first);
            assert(text + Mark::End.text() + Seq::<u8>::empty() =~= text);
            lemma_record_reads(s, i, first.fields, Mark::End, Seq::empty());
            let next = i + text.len();
            assert(s.subrange(next, s.len() as int).len() == 0);
            assert(records(s, next) == Ok::<Seq<Seq<Seq<u8>>>, ParseError>(Seq::empty()));
            assert(seq![fields_content(first.fields)] + Seq::<Seq<Seq<u8>>>::empty()
                =~= contents);
        } else {
            let stop = if first.crlf {
                Mark::CarriageReturnLineFeed
            } else {
                Mark::LineFeed
            };
            let tail = records_text(others, open_end);
            assert(stop.text() == first.line_break());
            lemma_record_reads(s, i, first.fields, stop, tail);
            let rest = BodyForm { records: others, open_end };
            assert(rest.valid()) by {
                assert forall|k: int| 0 <= k < others.len() implies (#[trigger] others[k]).valid(
                ) by {
                    assert(others[k] == list[k + 1]);
                }
                if open_end {
                    assert(others.last() == list.last());
                }
            }
            lemma_records_read(
                s,
                i + fields_text(first.fields).len() + stop.text().len(),
                others,
                open_end,
            );
            assert(seq![fields_content(first.fields)] + rest.contents() =~= contents);
        }
    }
}

/// However a body is written, the parser reads the records that were
/// written, and makes of them the document that they make.
pub proof fn law_every_writing_is_read(form: BodyForm)
    requires
        form.valid(),
    ensures
        records(form.text(), 0) == Ok::<Seq<Seq<Seq<u8>>>, ParseError>(form.contents()),
        parse(form.text()) == document(form.contents()),
{
    let body = form.text();
    assert(body.subrange(0, body.len() as int) =~= body);
    lemma_records_read(body, 0, form.records, form.open_end);
}

/// What stands at `j`, where a field ends.
spec fn mark_at(s: Seq<u8>, j: int) -> Mark {
    if j >= s.len() {
        Mark::End
    } else if s[j] == COMMA {
        Mark::Comma
    } else if s[j] == LINE_FEED {
        Mark::LineFeed
    } else {
        Mark::CarriageReturnLineFeed
    }
}

/// Where the text of the field that starts at `i` ends.
spec fn field_end(s: Seq<u8>, i: int) -> int {
    if 0 <= i < s.len() && s[i] == QUOTE {
        match quoted(s, i + 1) {
            Some((_, after)) => after,
            None => i,
        }
    } else {
        plain_end(s, i)
    }
}

/// The way the field that starts at `i` is written.
spec fn field_form(s: Seq<u8>, i: int) -> FieldForm {
    FieldForm {
        content: match field(s, i) {
            Ok(f) => f.content,
            Err(_) => Seq::empty(),
        },
        quoted: 0 <= i < s.len() && s[i] == QUOTE,
    }
}

/// The way the fields of the record that starts at `i` are written.
spec fn record_fields(s: Seq<u8>, i: int) -> Seq<FieldForm>
    decreases s.len() - i,
    when 0 <= i <= s.len()
{
    match field(s, i) {
        Ok(f) => if f.more {
            proof {
                lemma_field(s, i);
            }
            seq![field_form(s, i)] + record_fields(s, f.next)
        } else {
            seq![field_form(s, i)]
        },
        Err(_) => Seq::empty(),
    }
}

/// What ends the record that starts at `i`.
spec fn record_stop(s: Seq<u8>, i: int) -> Mark
    decreases s.len() - i,
    when 0 <= i <= s.len()
{
    match field(s, i) {
        Ok(f) => if f.more {
            proof {
                lemma_field(s, i);
            }
            record_stop(s, f.next)
        } else {
            mark_at(s, field_end(s, i))
        },
        Err(_) => Mark::End,
    }
}

/// The way the text from `i` on is written.
spec fn writing_from(s: Seq<u8>, i: int) -> BodyForm
    decreases s.len() - i,
    when 0 <= i
{
    if i >= s.len() {
        BodyForm { records: Seq::empty(), open_end: false }
    } else {
        match record(s, i) {
            Ok(r) => {
                proof {
                    lemma_record(s, i);
                }
                let stop = record_stop(s, i);
                let rest = writing_from(s, r.next);
                BodyForm {
                    records: seq![
                        RecordForm {
                            fields: record_fields(s, i),
                            crlf: stop is CarriageReturnLineFeed,
                        },
                    ] + rest.records,
                    open_end: stop is End || rest.open_end,
                }
            },
            Err(_) => BodyForm { records: Seq::empty(), open_end: false },
        }
    }
}

/// The way a body that parses is written.
pub closed spec fn writing_of(body: Seq<u8>) -> BodyForm {
    writing_from(body, 0)
}

/// Quoted content that was read stands in the body escaped, with the
/// closing quote after it.
proof fn lemma_quoted_text(s: Seq<u8>, i: int)
    requires
        0 <= i <= s.len(),
    ensures
        quoted(s, i) matches Some((content, after)) ==> i < after <= s.len() && s.subrange(
            i,
            after,
        ) == escaped(content) + seq![QUOTE],
    decreases s.len() - i,
{
    if i < s.len() {
        if s[i] != QUOTE {
            lemma_quoted_text(s, i + 1);
            if let Some((shorter, after)) = quoted(s, i + 1) {
                let content = seq![s[i]] + shorter;
                assert(content.drop_first() =~= shorter);
                assert(s.subrange(i, after) =~= seq![s[i]] + s.subrange(i + 1, after));
                assert(escaped(content) + seq![QUOTE] =~= seq![s[i]] + (escaped(shorter)
                    + seq![QUOTE]));
            }
        } else if i + 1 < s.len() && s[i + 1] == QUOTE {
            lemma_quoted_text(s, i + 2);
            if let Some((shorter, after)) = quoted(s, i + 2) {
                let content = seq![QUOTE] + shorter;
                assert(content.drop_first() =~= shorter);
                assert(s.subrange(i, after) =~= seq![QUOTE, QUOTE] + s.subrange(i + 2, after));
                assert(escaped(content) + seq![QUOTE] =~= seq![QUOTE, QUOTE] + (escaped(shorter)
                    + seq![QUOTE]));
            }
        } else {
            assert(s.subrange(i, i + 1) =~= escaped(Seq::<u8>::empty()) + seq![QUOTE]);
        }
    }
}

/// A field that was read stands in the body in one of the two ways of
/// writing it, with a mark after it.
proof fn lemma_field_text(s: Seq<u8>, i: int)
    requires
        0 <= i <= s.len(),
    ensures
        field(s, i) matches Ok(f) ==> {
            let form = field_form(s, i);
            let j = field_end(s, i);
            let mark = mark_at(s, j);
            &&& form.valid()
            &&& form.content == f.content
            &&& i <= j <= f.next <= s.len()
            &&& s.subrange(i, j) == form.text()
            &&& s.subrange(j, f.next) == mark.text()
            &&& (mark is Comma) == f.more
            &&& (mark is End ==> j == s.len())
        },
{
    if let Ok(f) = field(s, i) {
        let form = field_form(s, i);
        let j = field_end(s, i);
        let mark = mark_at(s, j);
        if i < s.len() && s[i] == QUOTE {
            lemma_quoted_text(s, i + 1);
            assert(s.subrange(i, j) =~= seq![QUOTE] + s.subrange(i + 1, j));
            assert(form.text() =~= seq![QUOTE] + (escaped(form.content) + seq![QUOTE]));
        } else {
            lemma_plain_end(s, i);
            assert forall|k: int| 0 <= k < form.content.len() implies is_plain(
                #[trigger] form.content[k],
            ) by {
                assert(form.content[k] == s[i + k]);
            }
        }
        assert(s.subrange(j, f.next) =~= mark.text());
    }
}

/// A record that was read stands in the body as its fields with commas
/// between them, and a line break or the end of the body after them.
proof fn lemma_record_text(s: Seq<u8>, i: int)
    requires
        0 <= i <= s.len(),
    ensures
        record(s, i) matches Ok(r) ==> {
            let fields = record_fields(s, i);
            let stop = record_stop(s, i);
            &&& fields.len() >= 1
            &&& forall|k: int| 0 <= k < fields.len() ==> (#[trigger] fields[k]).valid()
            &&& fields_content(fields) == r.fields
            &&& i <= r.next <= s.len()
            &&& s.subrange(i, r.next) == fields_text(fields) + stop.text()
            &&& stop !is Comma
            &&& (stop is End ==> r.next == s.len())
        },
    decreases s.len() - i,
{
    if let Ok(r) = record(s, i) {
        let f = field(s, i)->Ok_0;
        let form = field_form(s, i);
        let j = field_end(s, i);
        let fields = record_fields(s, i);
        let stop = record_stop(s, i);
        lemma_field(s, i);
        lemma_field_text(s, i);
        if f.more {
            lemma_record_text(s, f.next);
            let others = record_fields(s, f.next);
            assert(fields.drop_first() =~= others);
            assert forall|k: int| 0 <= k < fields.len() implies (#[trigger] fields[k]).valid() by {
                if k > 0 {
                    assert(fields[k] == others[k - 1]);
                }
            }
            assert(fields_content(fields) =~= seq![f.content] + fields_content(others));
            assert(s.subrange(i, r.next) =~= s.subrange(i, j) + s.subrange(j, f.next)
                + s.subrange(f.next, r.next));
            assert(fields_text(fields) + stop.text() =~= form.text() + seq![COMMA] + (fields_text(
                others,
            ) + stop.text()));
        } else {
            assert(fields_content(fields) =~= seq![f.content]);
            assert(s.subrange(i, r.next) =~= s.subrange(i, j) + s.subrange(j, f.next));
        }
    }
}

/// Text that was read as records is a valid writing of those records.
proof fn lemma_writing(s: Seq<u8>, i: int)
    requires
        0 <= i <= s.len(),
    ensures
        records(s, i) matches Ok(list) ==> {
            let form = writing_from(s, i);
            &&& form.valid()
            &&& form.contents() == list
            &&& s.subrange(i, s.len() as int) == form.text()
        },
    decreases s.len() - i,
{
    if let Ok(list) = records(s, i) {
        let form = writing_from(s, i);
        if i >= s.len() {
            assert(form.contents() =~= list);
            assert(s.subrange(i, s.len() as int) =~= form.text());
        } else {
            let r = record(s, i)->Ok_0;
            lemma_record(s, i);
            lemma_record_text(s, i);
            lemma_writing(s, r.next);
            let stop = record_stop(s, i);
            let rest = writing_from(s, r.next);
            let first = form.records[0];
            assert(form.records.drop_first() =~= rest.records);
            assert(first.valid());
            assert forall|k: int| 0 <= k < form.records.len() implies (
            #[trigger] form.records[k]).valid() by {
                if k > 0 {
                    assert(form.records[k] == rest.records[k - 1]);
                }
            }
            assert(form.contents() =~= seq![r.fields] + rest.contents());
            assert(s.subrange(i, s.len() as int) =~= s.subrange(i, r.next) + s.subrange(
                r.next,
                s.len() as int,
            ));
            if stop is End {
                assert(rest.records.len() == 0);
                assert(form.records.last() == first);
                assert(fields_text(first.fields) + stop.text() =~= fields_text(first.fields));
                assert(s.subrange(r.next, s.len() as int) =~= Seq::<u8>::empty());
                assert(s.subrange(i, s.len() as int) =~= fields_text(first.fields));
            } else {
                assert(stop.text() == first.line_break());
                if rest.open_end {
                    assert(form.records.last() == rest.records.last());
                }
                assert(form.open_end == rest.open_end);
                assert(records_text(form.records, form.open_end) == fields_text(first.fields)
                    + first.line_break() + records_text(rest.records, rest.open_end));
            }
        }
    }
}

/// A body that is read as records is written in one of the ways of
/// writing them: the parser accepts nothing else.
pub proof fn law_every_parsed_body_is_written(body: Seq<u8>)
    requires
        records(body, 0) is Ok,
    ensures
        writing_of(body).valid(),
        writing_of(body).text() == body,
        writing_of(body).contents() == records(body, 0)->Ok_0,
{
    lemma_writing(body, 0);
    assert(body.subrange(0, body.len() as int) =~= body);
}

/// Records of one width from `from` on are not ragged.
proof fn lemma_not_ragged(list: Seq<Seq<Seq<u8>>>, width: nat, from: int)
    requires
        0 <= from,
        forall|k: int| from <= k < list.len() ==> (#[trigger] list[k]).len() == width,
    ensures
        ragged_from(list, width, from) is None,
    decreases list.len() - from,
{
    if from < list.len() {
        lemma_not_ragged(list, width, from + 1);
    }
}

/// Parsing inverts the canonical text: a document with at least one column
/// whose rows all have one field for each column is what its canonical
/// text parses to.
pub proof fn law_parse_inverts_canonical_text(doc: Document)
    requires
        doc.columns.len() >= 1,
        doc.rectangular(),
    ensures
        canonical(doc).valid(),
        parse(canonical(doc).text()) == Ok::<Document, ParseError>(doc),
{
    let form = canonical(doc);
    let list = seq![doc.columns] + doc.rows;
    assert forall|k: int| 0 <= k < list.len() implies (#[trigger] list[k]).len() >= 1 by {
        if k > 0 {
            assert(list[k] == doc.rows[k - 1]);
        }
    }
    assert forall|k: int| 0 <= k < form.records.len() implies (#[trigger] form.records[k]).valid(
    ) by {
        assert(form.records[k].fields.len() == list[k].len());
    }
    assert(form.contents() =~= list) by {
        assert forall|k: int| 0 <= k < list.len() implies form.contents()[k] == list[k] by {
            assert(form.contents()[k] =~= list[k]);
        }
    }
    law_every_writing_is_read(form);
    assert forall|k: int| 1 <= k < list.len() implies (#[trigger] list[k]).len()
        == doc.columns.len() by {
        assert(list[k] == doc.rows[k - 1]);
    }
    lemma_not_ragged(list, doc.columns.len(), 1);
    assert(list.drop_first() =~= doc.rows);
}

/// Records that go without a ragged one from `from` on all have the width.
proof fn lemma_ragged_none(list: Seq<Seq<Seq<u8>>>, width: nat, from: int)
    requires
        0 <= from,
        ragged_from(list, width, from) is None,
    ensures
        forall|k: int| from <= k < list.len() ==> (#[trigger] list[k]).len() == width,
    decreases list.len() - from,
{
    if from < list.len() {
        lemma_ragged_none(list, width, from + 1);
    }
}

/// Every record that was read holds at least one field.
proof fn lemma_records_nonempty(s: Seq<u8>, i: int)
    requires
        0 <= i,
    ensures
        records(s, i) matches Ok(list) ==> forall|k: int|
            0 <= k < list.len() ==> (#[trigger] list[k]).len() >= 1,
    decreases s.len() - i,
{
    if i < s.len() {
        lemma_record(s, i);
        if let Ok(r) = record(s, i) {
            lemma_records_nonempty(s, r.next);
            if let Ok(rest) = records(s, r.next) {
                let list = seq![r.fields] + rest;
                assert forall|k: int| 0 <= k < list.len() implies (#[trigger] list[k]).len()
                    >= 1 by {
                    if k > 0 {
                        assert(list[k] == rest[k - 1]);
                    }
                }
            }
        }
    }
}

/// A body that parses gives a document with at least one column, and in
/// each row one field for each column.
pub proof fn law_parsed_is_rectangular(body: Seq<u8>)
    ensures
        parse(body) matches Ok(doc) ==> doc.columns.len() >= 1 && doc.rectangular(),
{
    if let Ok(list) = records(body, 0) {
        lemma_records_nonempty(body, 0);
        if let Ok(doc) = document(list) {
            lemma_ragged_none(list, list[0].len(), 1);
            assert forall|k: int| 0 <= k < doc.rows.len() implies (#[trigger] doc.rows[k]).len()
                == doc.columns.len() by {
                assert(doc.rows[k] == list[k + 1]);
            }
        }
    }
}

} // verus!
