//! Decoding of CSV text.
use crate::errors::HumanCommitError;
use crate::text::{char_from_u32, push_char, text_from_utf8};
use crate::views::views;
use vstd::prelude::*;
use vstd::utf8::{
    char_is_scalar, decode_utf8, encode_utf8, encode_utf8_decode_utf8, encode_utf8_valid_utf8,
    valid_utf8,
};

verus! {

/// Most columns of a table.
pub const MAX_COLUMNS: usize = 256;

/// Longest row, in bytes.
pub const MAX_ROW_BYTES: usize = 16_777_216;

/// Most records of an import.
pub const MAX_RECORDS: usize = 1_000_000;

/// The character between two fields.
#[derive(Clone, Copy, Debug, PartialEq, Eq, Structural)]
pub enum CsvDelimiter {
    Comma,
    Semicolon,
    Tab,
}

impl CsvDelimiter {
    /// The byte of a delimiter.
    pub open spec fn byte_value(self) -> u8 {
        match self {
            CsvDelimiter::Comma => 0x2c,
            CsvDelimiter::Semicolon => 0x3b,
            CsvDelimiter::Tab => 0x09,
        }
    }

    /// The byte of this delimiter.
    pub fn byte(self) -> (r: u8)
        ensures
            r == self.byte_value(),
    {
        match self {
            CsvDelimiter::Comma => 0x2c,
            CsvDelimiter::Semicolon => 0x3b,
            CsvDelimiter::Tab => 0x09,
        }
    }
}

/// How the text of a table is encoded.
#[derive(Clone, Copy, Debug, PartialEq, Eq, Structural)]
pub enum CsvEncoding {
    Utf8,
    Utf16Le,
    Utf16Be,
}

/// The UTF-16 unit at `i` of `b`.
pub open spec fn utf16_unit(b: Seq<u8>, little: bool, i: int) -> int {
    if little {
        b[i] + b[i + 1] * 0x100
    } else {
        b[i] * 0x100 + b[i + 1]
    }
}

/// Whether a UTF-16 unit begins a surrogate pair.
pub open spec fn is_high(u: int) -> bool {
    0xd800 <= u < 0xdc00
}

/// Whether a UTF-16 unit ends a surrogate pair.
pub open spec fn is_low(u: int) -> bool {
    0xdc00 <= u < 0xe000
}

/// The text that the UTF-16 units from byte `i` on encode; none where a
/// surrogate stands alone or a unit is cut off.
pub open spec fn utf16_text(b: Seq<u8>, little: bool, i: int) -> Option<Seq<char>>
    decreases b.len() - i,
{
    if i < 0 || i == b.len() {
        Some(Seq::empty())
    } else if i + 2 > b.len() {
        None
    } else {
        let u = utf16_unit(b, little, i);
        if is_high(u) {
            if i + 4 <= b.len() && is_low(utf16_unit(b, little, i + 2)) {
                let n = 0x10000 + (u - 0xd800) * 0x400 + (utf16_unit(b, little, i + 2) - 0xdc00);
                match utf16_text(b, little, i + 4) {
                    Some(rest) => Some(seq![n as char] + rest),
                    None => None,
                }
            } else {
                None
            }
        } else if is_low(u) {
            None
        } else {
            match utf16_text(b, little, i + 2) {
                Some(rest) => Some(seq![u as char] + rest),
                None => None,
            }
        }
    }
}

/// The text of a table: UTF-8 after an optional byte order mark, UTF-16 after
/// a required one.
pub open spec fn decoded_text(b: Seq<u8>, encoding: CsvEncoding) -> Option<Seq<char>> {
    match encoding {
        CsvEncoding::Utf8 => {
            let body = if b.len() >= 3 && b[0] == 0xef && b[1] == 0xbb && b[2] == 0xbf {
                b.skip(3)
            } else {
                b
            };
            if valid_utf8(body) {
                Some(decode_utf8(body))
            } else {
                None
            }
        },
        CsvEncoding::Utf16Le => if b.len() >= 2 && b[0] == 0xff && b[1] == 0xfe {
            utf16_text(b.skip(2), true, 0)
        } else {
            None
        },
        CsvEncoding::Utf16Be => if b.len() >= 2 && b[0] == 0xfe && b[1] == 0xff {
            utf16_text(b.skip(2), false, 0)
        } else {
            None
        },
    }
}

/// Decodes UTF-16 text.
fn decode_utf16(b: &[u8], little: bool) -> (r: Option<String>)
    ensures
        match utf16_text(b@, little, 0) {
            Some(s) => r is Some && (r->0)@ == s,
            None => r is None,
        },
{
    let mut out = String::new();
    let mut i: usize = 0;
    let ghost all = utf16_text(b@, little, 0);
    proof {
        if let Some(s) = all {
            assert(out@ + s =~= s);
        }
    }
    while i < b.len()
        invariant
            i <= b@.len(),
            all == utf16_text(b@, little, 0),
            match utf16_text(b@, little, i as int) {
                Some(s) => all == Some(out@ + s),
                None => all is None,
            },
        decreases b@.len() - i,
    {
        if b.len() - i < 2 {
            return None;
        }
        let u: u32 = if little {
            b[i] as u32 + b[i + 1] as u32 * 0x100
        } else {
            b[i] as u32 * 0x100 + b[i + 1] as u32
        };
        let ghost before = out@;
        if u >= 0xd800 && u < 0xdc00 {
            if b.len() - i < 4 {
                return None;
            }
            let v: u32 = if little {
                b[i + 2] as u32 + b[i + 3] as u32 * 0x100
            } else {
                b[i + 2] as u32 * 0x100 + b[i + 3] as u32
            };
            if v < 0xdc00 || v >= 0xe000 {
                return None;
            }
            let n: u32 = 0x10000 + (u - 0xd800) * 0x400 + (v - 0xdc00);
            match char_from_u32(n) {
                Some(c) => {
                    push_char(&mut out, c);
                    proof {
                        assert(c == n as char);
                        if let Some(s) = utf16_text(b@, little, i + 4) {
                            assert(before + (seq![n as char] + s) =~= out@ + s);
                        }
                    }
                },
                None => {
                    return None;
                },
            }
            i += 4;
        } else if u >= 0xdc00 && u < 0xe000 {
            return None;
        } else {
            match char_from_u32(u) {
                Some(c) => {
                    push_char(&mut out, c);
                    proof {
                        assert(c == u as char);
                        if let Some(s) = utf16_text(b@, little, i + 2) {
                            assert(before + (seq![u as char] + s) =~= out@ + s);
                        }
                    }
                },
                None => {
                    return None;
                },
            }
            i += 2;
        }
    }
    assert(out@ + Seq::<char>::empty() =~= out@);
    Some(out)
}

/// Decodes the text of a table.
pub fn decode_text(bytes: &[u8], encoding: CsvEncoding) -> (r: Result<String, HumanCommitError>)
    ensures
        match decoded_text(bytes@, encoding) {
            Some(s) => r is Ok && (r->Ok_0)@ == s,
            None => r is Err && r->Err_0 is InvalidInput,
        },
{
    let text = match encoding {
        CsvEncoding::Utf8 => {
            let marked = bytes.len() >= 3 && bytes[0] == 0xef && bytes[1] == 0xbb && bytes[2]
                == 0xbf;
            let body = if marked {
                vstd::slice::slice_subrange(bytes, 3, bytes.len())
            } else {
                bytes
            };
            assert(marked ==> body@ =~= bytes@.skip(3));
            text_from_utf8(vstd::slice::slice_to_vec(body))
        },
        CsvEncoding::Utf16Le => {
            if bytes.len() >= 2 && bytes[0] == 0xff && bytes[1] == 0xfe {
                let body = vstd::slice::slice_subrange(bytes, 2, bytes.len());
                assert(body@ =~= bytes@.skip(2));
                decode_utf16(body, true)
            } else {
                None
            }
        },
        CsvEncoding::Utf16Be => {
            if bytes.len() >= 2 && bytes[0] == 0xfe && bytes[1] == 0xff {
                let body = vstd::slice::slice_subrange(bytes, 2, bytes.len());
                assert(body@ =~= bytes@.skip(2));
                decode_utf16(body, false)
            } else {
                None
            }
        },
    };
    match text {
        Some(s) => Ok(s),
        None => Err(HumanCommitError::InvalidInput),
    }
}

/// What has been read of a table.
pub struct CsvState {
    /// The finished rows.
    pub rows: Seq<Seq<Seq<char>>>,
    /// The finished fields of the current row.
    pub row: Seq<Seq<char>>,
    /// The bytes of the current field.
    pub field: Seq<u8>,
    /// Whether the current field is inside quotes.
    pub quoted: bool,
    /// Whether the current field was quoted and its closing quote was read.
    pub after_quote: bool,
    /// The bytes read of the current row.
    pub row_bytes: nat,
}

/// Nothing read yet.
pub open spec fn csv_start() -> CsvState {
    CsvState {
        rows: Seq::empty(),
        row: Seq::empty(),
        field: Seq::empty(),
        quoted: false,
        after_quote: false,
        row_bytes: 0,
    }
}

/// The current field is finished; refused where the row is full or the field
/// is not UTF-8.
pub open spec fn field_done(s: CsvState) -> Option<CsvState> {
    if s.row.len() >= MAX_COLUMNS || !valid_utf8(s.field) {
        None
    } else {
        Some(
            CsvState {
                row: s.row.push(decode_utf8(s.field)),
                field: Seq::empty(),
                after_quote: false,
                ..s
            },
        )
    }
}

/// The current field and row are finished; refused where there are too many
/// rows.
pub open spec fn row_done(s: CsvState) -> Option<CsvState> {
    match field_done(s) {
        Some(s) => if s.rows.len() + 1 > MAX_RECORDS + 1 {
            None
        } else {
            Some(
                CsvState { rows: s.rows.push(s.row), row: Seq::empty(), row_bytes: 0, ..s },
            )
        },
        None => None,
    }
}

/// Whether `b[i]` is the byte `c`.
pub open spec fn byte_is(b: Seq<u8>, i: int, c: u8) -> bool {
    0 <= i < b.len() && b[i] == c
}

/// Reads at `i`: what has been read then, and how many bytes were taken.
///
/// A field that begins with a quote runs to its closing quote, a doubled quote
/// inside standing for one; only a delimiter or a line end may follow. A line
/// ends with a line feed, which a carriage return may precede; a carriage
/// return alone is refused.
pub open spec fn csv_step(b: Seq<u8>, delimiter: u8, i: int, before: CsvState) -> Option<
    (CsvState, int),
> {
    let c = b[i];
    let s = CsvState { row_bytes: before.row_bytes + 1, ..before };
    let line_end: int = if c == 0x0a {
        1
    } else if c == 0x0d && byte_is(b, i + 1, 0x0a) {
        2
    } else {
        0
    };
    if s.row_bytes > MAX_ROW_BYTES {
        None
    } else if s.quoted {
        if c == 0x22 {
            if byte_is(b, i + 1, 0x22) {
                Some((CsvState { field: s.field.push(0x22), ..s }, 2))
            } else {
                Some((CsvState { quoted: false, after_quote: true, ..s }, 1))
            }
        } else {
            Some((CsvState { field: s.field.push(c), ..s }, 1))
        }
    } else if !s.after_quote && c == 0x22 && s.field.len() == 0 {
        Some((CsvState { quoted: true, ..s }, 1))
    } else if c == delimiter {
        match field_done(s) {
            Some(s) => Some((s, 1)),
            None => None,
        }
    } else if line_end > 0 {
        match row_done(s) {
            Some(s) => Some((s, line_end)),
            None => None,
        }
    } else if s.after_quote || c == 0x0d {
        None
    } else {
        Some((CsvState { field: s.field.push(c), ..s }, 1))
    }
}

/// The table when everything has been read: an open quote is refused, and a
/// last row without a line end counts.
pub open spec fn csv_end(s: CsvState) -> Option<Seq<Seq<Seq<char>>>> {
    if s.quoted {
        None
    } else if s.after_quote || s.field.len() > 0 || s.row.len() > 0 {
        match row_done(s) {
            Some(s) => Some(s.rows),
            None => None,
        }
    } else {
        Some(s.rows)
    }
}

/// The table that the bytes from `i` on complete.
pub open spec fn csv_from(b: Seq<u8>, delimiter: u8, i: int, s: CsvState) -> Option<
    Seq<Seq<Seq<char>>>,
>
    decreases b.len() - i,
{
    if i < 0 || i >= b.len() {
        csv_end(s)
    } else {
        match csv_step(b, delimiter, i, s) {
            Some((next, n)) => if n >= 1 {
                csv_from(b, delimiter, i + n, next)
            } else {
                None
            },
            None => None,
        }
    }
}

/// The table that bytes spell.
pub open spec fn csv_table(b: Seq<u8>, delimiter: u8) -> Option<Seq<Seq<Seq<char>>>> {
    csv_from(b, delimiter, 0, csv_start())
}

/// The fields of each row of a table.
pub open spec fn table_view(rows: Seq<Vec<String>>) -> Seq<Seq<Seq<char>>> {
    Seq::new(rows.len(), |i: int| views(rows[i]@))
}

/// A table in the making.
struct CsvReader {
    rows: Vec<Vec<String>>,
    row: Vec<String>,
    field: Vec<u8>,
    quoted: bool,
    after_quote: bool,
    row_bytes: usize,
}

impl View for CsvReader {
    type V = CsvState;

    closed spec fn view(&self) -> CsvState {
        CsvState {
            rows: table_view(self.rows@),
            row: views(self.row@),
            field: self.field@,
            quoted: self.quoted,
            after_quote: self.after_quote,
            row_bytes: self.row_bytes as nat,
        }
    }
}

impl CsvReader {
    /// Nothing read yet.
    fn new() -> (r: CsvReader)
        ensures
            r@ == csv_start(),
    {
        let r = CsvReader {
            rows: Vec::new(),
            row: Vec::new(),
            field: Vec::new(),
            quoted: false,
            after_quote: false,
            row_bytes: 0,
        };
        assert(r@.rows =~= Seq::empty());
        assert(r@.row =~= Seq::empty());
        r
    }

    /// Finishes the current field.
    fn push_field(&mut self) -> (r: Option<()>)
        ensures
            match field_done(old(self)@) {
                Some(s) => r is Some && final(self)@ == s,
                None => r is None,
            },
    {
        if self.row.len() >= MAX_COLUMNS {
            return None;
        }
        let mut field: Vec<u8> = Vec::new();
        std::mem::swap(&mut field, &mut self.field);
        let text = text_from_utf8(field)?;
        let ghost row = self.row@;
        self.row.push(text);
        self.after_quote = false;
        assert(views(self.row@) =~= views(row).push(text@));
        assert(self.field@ =~= Seq::<u8>::empty());
        Some(())
    }

    /// Finishes the current field and row.
    fn push_row(&mut self) -> (r: Option<()>)
        ensures
            match row_done(old(self)@) {
                Some(s) => r is Some && final(self)@ == s,
                None => r is None,
            },
    {
        self.push_field()?;
        if self.rows.len() > MAX_RECORDS {
            return None;
        }
        let mut row: Vec<String> = Vec::new();
        std::mem::swap(&mut row, &mut self.row);
        let ghost rows = self.rows@;
        self.rows.push(row);
        self.row_bytes = 0;
        assert(table_view(self.rows@) =~= table_view(rows).push(views(row@)));
        assert(views(self.row@) =~= Seq::<Seq<char>>::empty());
        Some(())
    }

    /// Reads at `i` and tells how many bytes were taken.
    fn step(&mut self, bytes: &[u8], delimiter: u8, i: usize) -> (r: Option<usize>)
        requires
            i < bytes@.len(),
            old(self)@.row_bytes <= MAX_ROW_BYTES,
        ensures
            match csv_step(bytes@, delimiter, i as int, old(self)@) {
                Some((s, n)) => r is Some && r->0 == n && final(self)@ == s && s.row_bytes
                    <= MAX_ROW_BYTES && 1 <= n && i + n <= bytes@.len(),
                None => r is None,
            },
    {
        let b: u8 = bytes[i];
        self.row_bytes += 1;
        if self.row_bytes > MAX_ROW_BYTES {
            return None;
        }
        if self.quoted {
            if b == 0x22 {
                if i + 1 < bytes.len() && bytes[i + 1] == 0x22 {
                    self.field.push(0x22);
                    return Some(2);
                }
                self.quoted = false;
                self.after_quote = true;
            } else {
                self.field.push(b);
            }
            return Some(1);
        }
        if !self.after_quote && b == 0x22 && self.field.len() == 0 {
            self.quoted = true;
            return Some(1);
        }
        if b == delimiter {
            self.push_field()?;
            return Some(1);
        }
        if b == 0x0a {
            self.push_row()?;
            return Some(1);
        }
        if b == 0x0d && i + 1 < bytes.len() && bytes[i + 1] == 0x0a {
            self.push_row()?;
            return Some(2);
        }
        if self.after_quote || b == 0x0d {
            return None;
        }
        self.field.push(b);
        Some(1)
    }

    /// The finished table.
    fn finish(self) -> (r: Option<Vec<Vec<String>>>)
        ensures
            match csv_end(self@) {
                Some(t) => r is Some && table_view((r->0)@) == t,
                None => r is None,
            },
    {
        let mut reader = self;
        if reader.quoted {
            return None;
        }
        if reader.after_quote || reader.field.len() > 0 || reader.row.len() > 0 {
            reader.push_row()?;
        }
        Some(reader.rows)
    }
}

/// Reads a table.
pub fn parse_csv(bytes: &[u8], delimiter: u8) -> (r: Result<Vec<Vec<String>>, HumanCommitError>)
    ensures
        match csv_table(bytes@, delimiter) {
            Some(t) => r is Ok && table_view((r->Ok_0)@) == t,
            None => r is Err && r->Err_0 is InvalidInput,
        },
{
    let mut reader = CsvReader::new();
    let mut i: usize = 0;
    while i < bytes.len()
        invariant
            i <= bytes@.len(),
            reader@.row_bytes <= MAX_ROW_BYTES,
            csv_table(bytes@, delimiter) == csv_from(bytes@, delimiter, i as int, reader@),
        decreases bytes@.len() - i,
    {
        match reader.step(bytes, delimiter, i) {
            Some(n) => {
                i += n;
            },
            None => {
                return Err(HumanCommitError::InvalidInput);
            },
        }
    }
    match reader.finish() {
        Some(rows) => Ok(rows),
        None => Err(HumanCommitError::InvalidInput),
    }
}

/// A cell as it is written: its bytes, and whether it stands in quotes.
pub struct Cell {
    pub bytes: Seq<u8>,
    pub quoted: bool,
}

/// Bytes with each quote doubled.
pub open spec fn doubled(b: Seq<u8>) -> Seq<u8>
    decreases b.len(),
{
    if b.len() == 0 {
        Seq::empty()
    } else if b[0] == '"' as u8 {
        seq!['"' as u8, '"' as u8] + doubled(b.skip(1))
    } else {
        seq![b[0]] + doubled(b.skip(1))
    }
}

/// What is written of a cell.
pub open spec fn cell_bytes(c: Cell) -> Seq<u8> {
    if c.quoted {
        seq!['"' as u8] + doubled(c.bytes) + seq!['"' as u8]
    } else {
        c.bytes
    }
}

/// Whether a cell can be written: it is text, and one without quotes holds no
/// delimiter and no line end, and does not start with a quote.
pub open spec fn writable(c: Cell, delimiter: u8) -> bool {
    &&& valid_utf8(c.bytes)
    &&& c.quoted || {
        &&& forall|i: int|
            0 <= i < c.bytes.len() ==> (#[trigger] c.bytes[i]) != delimiter && c.bytes[i]
                != '\n' as u8 && c.bytes[i] != '\r' as u8
        &&& c.bytes.len() > 0 ==> c.bytes[0] != '"' as u8
    }
}

/// A row as it is written: its cells, and whether a carriage return stands
/// before its line feed.
pub struct Line {
    pub cells: Seq<Cell>,
    pub carriage_return: bool,
}

/// Cells with the delimiter between them.
pub open spec fn joined(cells: Seq<Cell>, delimiter: u8) -> Seq<u8>
    decreases cells.len(),
{
    if cells.len() == 0 {
        Seq::empty()
    } else if cells.len() == 1 {
        cell_bytes(cells[0])
    } else {
        cell_bytes(cells[0]) + seq![delimiter] + joined(cells.skip(1), delimiter)
    }
}

/// What is written of a row.
pub open spec fn csv_line(l: Line, delimiter: u8) -> Seq<u8> {
    joined(l.cells, delimiter) + (if l.carriage_return {
        seq!['\r' as u8, '\n' as u8]
    } else {
        seq!['\n' as u8]
    })
}

/// What is written of a table.
pub open spec fn csv_lines(lines: Seq<Line>, delimiter: u8) -> Seq<u8>
    decreases lines.len(),
{
    if lines.len() == 0 {
        Seq::empty()
    } else {
        csv_line(lines[0], delimiter) + csv_lines(lines.skip(1), delimiter)
    }
}

/// The texts of cells.
pub open spec fn texts(cells: Seq<Cell>) -> Seq<Seq<char>> {
    Seq::new(cells.len(), |i: int| decode_utf8(cells[i].bytes))
}

/// Whether `part` stands in `b` at `i`.
spec fn holds(b: Seq<u8>, i: int, part: Seq<u8>) -> bool {
    0 <= i && i + part.len() <= b.len() && b.subrange(i, i + part.len()) == part
}

/// What stands somewhere stands there part by part.
proof fn lemma_holds(b: Seq<u8>, i: int, x: Seq<u8>, y: Seq<u8>)
    requires
        holds(b, i, x + y),
    ensures
        holds(b, i, x),
        holds(b, i + x.len(), y),
        x.len() > 0 ==> b[i] == x[0],
{
    let all = b.subrange(i, i + (x + y).len());
    assert(all == x + y);
    assert(b.subrange(i, i + x.len()) =~= x) by {
        assert forall|k: int| 0 <= k < x.len() implies b[i + k] == x[k] by {
            assert(all[k] == (x + y)[k]);
        }
    }
    assert(b.subrange(i + x.len(), i + x.len() + y.len()) =~= y) by {
        assert forall|k: int| 0 <= k < y.len() implies b[i + x.len() + k] == y[k] by {
            assert(all[x.len() + k] == (x + y)[x.len() + k]);
        }
    }
    if x.len() > 0 {
        assert(all[0] == (x + y)[0]);
    }
}

/// A plain cell is read byte by byte.
proof fn lemma_plain_read(b: Seq<u8>, delimiter: u8, i: int, s: CsvState, f: Seq<u8>)
    requires
        holds(b, i, f),
        !s.quoted,
        !s.after_quote,
        s.field.len() > 0 || f.len() == 0 || f[0] != 0x22,
        forall|k: int| 0 <= k < f.len() ==> (#[trigger] f[k]) != delimiter && f[k] != 0x0a && f[k]
            != 0x0d,
        s.row_bytes + f.len() <= MAX_ROW_BYTES,
    ensures
        csv_from(b, delimiter, i, s) == csv_from(
            b,
            delimiter,
            i + f.len(),
            CsvState { field: s.field + f, row_bytes: s.row_bytes + f.len(), ..s },
        ),
    decreases f.len(),
{
    if f.len() == 0 {
        assert(s.field + f =~= s.field);
    } else {
        let rest = f.skip(1);
        assert(f =~= seq![f[0]] + rest);
        lemma_holds(b, i, seq![f[0]], rest);
        let next = CsvState { field: s.field.push(f[0]), row_bytes: s.row_bytes + 1, ..s };
        assert(csv_step(b, delimiter, i, s) == Some((next, 1int)));
        assert(forall|k: int| 0 <= k < rest.len() ==> #[trigger] rest[k] == f[k + 1]);
        lemma_plain_read(b, delimiter, i + 1, next, rest);
        assert(next.field + rest =~= s.field + f);
    }
}

/// What stands in quotes is read with its quotes undoubled.
proof fn lemma_quoted_read(b: Seq<u8>, delimiter: u8, i: int, s: CsvState, f: Seq<u8>)
    requires
        holds(b, i, doubled(f)),
        s.quoted,
        s.row_bytes + f.len() <= MAX_ROW_BYTES,
    ensures
        csv_from(b, delimiter, i, s) == csv_from(
            b,
            delimiter,
            i + doubled(f).len(),
            CsvState { field: s.field + f, row_bytes: s.row_bytes + f.len(), ..s },
        ),
    decreases f.len(),
{
    if f.len() == 0 {
        assert(s.field + f =~= s.field);
    } else {
        let rest = f.skip(1);
        let next = CsvState { field: s.field.push(f[0]), row_bytes: s.row_bytes + 1, ..s };
        if f[0] == 0x22 {
            assert(doubled(f) =~= seq![0x22u8] + (seq![0x22u8] + doubled(rest)));
            lemma_holds(b, i, seq![0x22u8], seq![0x22u8] + doubled(rest));
            lemma_holds(b, i + 1, seq![0x22u8], doubled(rest));
            assert(csv_step(b, delimiter, i, s) == Some((next, 2int)));
            lemma_quoted_read(b, delimiter, i + 2, next, rest);
        } else {
            lemma_holds(b, i, seq![f[0]], doubled(rest));
            assert(csv_step(b, delimiter, i, s) == Some((next, 1int)));
            lemma_quoted_read(b, delimiter, i + 1, next, rest);
        }
        assert(next.field + rest =~= s.field + f);
    }
}

/// How many bytes of a row a cell counts for.
spec fn counted(c: Cell) -> nat {
    if c.quoted {
        c.bytes.len() + 2
    } else {
        c.bytes.len()
    }
}

/// A cell counts for no more than is written of it.
proof fn lemma_counted(c: Cell)
    ensures
        counted(c) <= cell_bytes(c).len(),
{
    lemma_doubled_len(c.bytes);
}

/// Doubling quotes only adds.
proof fn lemma_doubled_len(b: Seq<u8>)
    ensures
        b.len() <= doubled(b).len(),
    decreases b.len(),
{
    if b.len() > 0 {
        lemma_doubled_len(b.skip(1));
    }
}

/// A cell is read up to what ends it.
proof fn lemma_cell_read(b: Seq<u8>, delimiter: u8, i: int, s: CsvState, c: Cell)
    requires
        holds(b, i, cell_bytes(c)),
        i + cell_bytes(c).len() < b.len(),
        b[i + cell_bytes(c).len()] != 0x22,
        writable(c, delimiter),
        delimiter != 0x22,
        !s.quoted,
        !s.after_quote,
        s.field.len() == 0,
        s.row_bytes + counted(c) <= MAX_ROW_BYTES,
    ensures
        csv_from(b, delimiter, i, s) == csv_from(
            b,
            delimiter,
            i + cell_bytes(c).len(),
            CsvState {
                field: c.bytes,
                after_quote: c.quoted,
                row_bytes: s.row_bytes + counted(c),
                ..s
            },
        ),
{
    assert(s.field =~= Seq::<u8>::empty());
    assert(s.field + c.bytes =~= c.bytes);
    if c.quoted {
        let d = doubled(c.bytes);
        assert(cell_bytes(c) =~= seq![0x22u8] + (d + seq![0x22u8]));
        lemma_holds(b, i, seq![0x22u8], d + seq![0x22u8]);
        lemma_holds(b, i + 1, d, seq![0x22u8]);
        let opened = CsvState { quoted: true, row_bytes: s.row_bytes + 1, ..s };
        assert(csv_step(b, delimiter, i, s) == Some((opened, 1int)));
        lemma_quoted_read(b, delimiter, i + 1, opened, c.bytes);
        let j = i + 1 + d.len();
        assert(b[j] == 0x22) by {
            assert(b.subrange(j, j + 1) == seq![0x22u8]);
            assert(b.subrange(j, j + 1)[0] == 0x22);
        }
        let read = CsvState {
            field: c.bytes,
            row_bytes: s.row_bytes + 1 + c.bytes.len(),
            ..opened
        };
        let closed = CsvState {
            quoted: false,
            after_quote: true,
            row_bytes: s.row_bytes + counted(c),
            ..read
        };
        assert(csv_step(b, delimiter, j, read) == Some((closed, 1int)));
    } else {
        lemma_plain_read(b, delimiter, i, s, c.bytes);
    }
}

/// A row is read cell by cell, up to its end.
proof fn lemma_line_read(
    b: Seq<u8>,
    delimiter: u8,
    i: int,
    s: CsvState,
    cells: Seq<Cell>,
    carriage_return: bool,
)
    requires
        cells.len() > 0,
        holds(b, i, csv_line(Line { cells, carriage_return }, delimiter)),
        forall|k: int| 0 <= k < cells.len() ==> writable(#[trigger] cells[k], delimiter),
        delimiter == 0x2c || delimiter == 0x3b || delimiter == 0x09,
        !s.quoted,
        !s.after_quote,
        s.field.len() == 0,
        s.row.len() + cells.len() <= MAX_COLUMNS,
        s.rows.len() <= MAX_RECORDS,
        s.row_bytes + csv_line(Line { cells, carriage_return }, delimiter).len() <= MAX_ROW_BYTES,
    ensures
        csv_from(b, delimiter, i, s) == csv_from(
            b,
            delimiter,
            i + csv_line(Line { cells, carriage_return }, delimiter).len(),
            CsvState {
                rows: s.rows.push(s.row + texts(cells)),
                row: Seq::empty(),
                row_bytes: 0,
                ..s
            },
        ),
    decreases cells.len(),
{
    let c = cells[0];
    let w = cell_bytes(c);
    let end = if carriage_return {
        seq![0x0du8, 0x0au8]
    } else {
        seq![0x0au8]
    };
    let all = csv_line(Line { cells, carriage_return }, delimiter);
    let j = i + w.len();
    let read = CsvState {
        field: c.bytes,
        after_quote: c.quoted,
        row_bytes: s.row_bytes + counted(c),
        ..s
    };
    assert(s.field =~= Seq::<u8>::empty());
    lemma_counted(c);
    assert(writable(cells[0], delimiter));
    if cells.len() == 1 {
        assert(all =~= w + end);
        lemma_holds(b, i, w, end);
        assert(b[j] == end[0]) by {
            assert(b.subrange(j, j + end.len())[0] == end[0]);
        }
        lemma_cell_read(b, delimiter, i, s, c);
        if carriage_return {
            assert(b[j + 1] == 0x0a) by {
                assert(b.subrange(j, j + 2)[1] == end[1]);
            }
        }
        let done = CsvState {
            rows: s.rows.push(s.row.push(decode_utf8(c.bytes))),
            row: Seq::empty(),
            field: Seq::empty(),
            after_quote: false,
            row_bytes: 0,
            ..s
        };
        assert(csv_step(b, delimiter, j, read) == Some((done, end.len() as int)));
        assert(s.row.push(decode_utf8(c.bytes)) =~= s.row + texts(cells));
    } else {
        let more = cells.skip(1);
        let rest = csv_line(Line { cells: more, carriage_return }, delimiter);
        assert(all =~= w + (seq![delimiter] + rest));
        lemma_holds(b, i, w, seq![delimiter] + rest);
        lemma_holds(b, j, seq![delimiter], rest);
        lemma_cell_read(b, delimiter, i, s, c);
        let next = CsvState {
            row: s.row.push(decode_utf8(c.bytes)),
            field: Seq::empty(),
            after_quote: false,
            row_bytes: s.row_bytes + counted(c) + 1,
            ..s
        };
        assert(csv_step(b, delimiter, j, read) == Some((next, 1int)));
        assert forall|k: int| 0 <= k < more.len() implies writable(#[trigger] more[k],
            delimiter) by {
            assert(more[k] == cells[k + 1]);
        }
        lemma_line_read(b, delimiter, j + 1, next, more, carriage_return);
        assert(next.row + texts(more) =~= s.row + texts(cells));
    }
}

/// Rows are read one after the other.
proof fn lemma_lines_read(b: Seq<u8>, delimiter: u8, i: int, s: CsvState, lines: Seq<Line>)
    requires
        holds(b, i, csv_lines(lines, delimiter)),
        i + csv_lines(lines, delimiter).len() == b.len(),
        delimiter == 0x2c || delimiter == 0x3b || delimiter == 0x09,
        forall|n: int|
            0 <= n < lines.len() ==> 0 < (#[trigger] lines[n]).cells.len() <= MAX_COLUMNS
                && csv_line(lines[n], delimiter).len() <= MAX_ROW_BYTES,
        forall|n: int, k: int|
            0 <= n < lines.len() && 0 <= k < lines[n].cells.len() ==> writable(
                #[trigger] lines[n].cells[k],
                delimiter,
            ),
        s.rows.len() + lines.len() <= MAX_RECORDS + 1,
        !s.quoted,
        !s.after_quote,
        s.field.len() == 0,
        s.row.len() == 0,
        s.row_bytes == 0,
    ensures
        csv_from(b, delimiter, i, s) == Some(
            s.rows + Seq::new(lines.len(), |n: int| texts(lines[n].cells)),
        ),
    decreases lines.len(),
{
    let tables = Seq::new(lines.len(), |n: int| texts(lines[n].cells));
    if lines.len() == 0 {
        assert(s.rows + tables =~= s.rows);
    } else {
        let first = lines[0];
        let more = lines.skip(1);
        let w = csv_line(first, delimiter);
        lemma_holds(b, i, w, csv_lines(more, delimiter));
        assert(first == Line { cells: first.cells, carriage_return: first.carriage_return });
        lemma_line_read(b, delimiter, i, s, first.cells, first.carriage_return);
        let next = CsvState {
            rows: s.rows.push(s.row + texts(first.cells)),
            row: Seq::empty(),
            row_bytes: 0,
            ..s
        };
        assert(forall|n: int| 0 <= n < more.len() ==> #[trigger] more[n] == lines[n + 1]);
        lemma_lines_read(b, delimiter, i + w.len(), next, more);
        assert(s.row + texts(first.cells) =~= texts(first.cells));
        assert(next.rows + Seq::new(more.len(), |n: int| texts(more[n].cells)) =~= s.rows
            + tables);
    }
}

/// What is written as a table is read as that table: each cell's text in its
/// place, whether it stands in quotes or not, and whichever way its row ends.
pub proof fn lemma_table_read(delimiter: CsvDelimiter, lines: Seq<Line>)
    requires
        forall|n: int|
            0 <= n < lines.len() ==> 0 < (#[trigger] lines[n]).cells.len() <= 256 && csv_line(
                lines[n],
                delimiter.byte_value(),
            ).len() <= 16 * 1024 * 1024,
        forall|n: int, k: int|
            0 <= n < lines.len() && 0 <= k < lines[n].cells.len() ==> writable(
                #[trigger] lines[n].cells[k],
                delimiter.byte_value(),
            ),
        lines.len() <= 1000001,
    ensures
        csv_table(csv_lines(lines, delimiter.byte_value()), delimiter.byte_value()) == Some(
            Seq::new(lines.len(), |n: int| texts(lines[n].cells)),
        ),
        delimiter is Comma ==> delimiter.byte_value() == ',' as u8,
        delimiter is Semicolon ==> delimiter.byte_value() == ';' as u8,
        delimiter is Tab ==> delimiter.byte_value() == '\t' as u8,
{
    let d = delimiter.byte_value();
    let b = csv_lines(lines, d);
    assert(b.subrange(0, b.len() as int) =~= b);
    lemma_lines_read(b, d, 0, csv_start(), lines);
    assert(csv_start().rows + Seq::new(lines.len(), |n: int| texts(lines[n].cells)) =~= Seq::new(
        lines.len(),
        |n: int| texts(lines[n].cells),
    ));
}

/// A text that ends inside quotes is no table.
pub proof fn lemma_open_quote(delimiter: CsvDelimiter, f: Seq<u8>)
    requires
        f.len() < 16 * 1024 * 1024,
    ensures
        csv_table(seq!['"' as u8] + doubled(f), delimiter.byte_value()) is None,
{
    let d = delimiter.byte_value();
    let b = seq![0x22u8] + doubled(f);
    let opened = CsvState { quoted: true, row_bytes: 1, ..csv_start() };
    assert(csv_step(b, d, 0, csv_start()) == Some((opened, 1int)));
    assert(b.subrange(0, b.len() as int) =~= b);
    lemma_holds(b, 0, seq![0x22u8], doubled(f));
    lemma_quoted_read(b, d, 1, opened, f);
}

/// A unit of two bytes, in one order or the other.
pub open spec fn unit_bytes(u: int, little: bool) -> Seq<u8> {
    if little {
        seq![(u % 256) as u8, (u / 256) as u8]
    } else {
        seq![(u / 256) as u8, (u % 256) as u8]
    }
}

/// The units of a character: one, or a high and a low one.
pub open spec fn char_bytes(c: char, little: bool) -> Seq<u8> {
    let n = c as int;
    if n < 0x10000 {
        unit_bytes(n, little)
    } else {
        unit_bytes(0xd800 + (n - 0x10000) / 1024, little) + unit_bytes(
            0xdc00 + (n - 0x10000) % 1024,
            little,
        )
    }
}

/// The units of a text.
pub open spec fn utf16_bytes(text: Seq<char>, little: bool) -> Seq<u8>
    decreases text.len(),
{
    if text.len() == 0 {
        Seq::empty()
    } else {
        char_bytes(text[0], little) + utf16_bytes(text.skip(1), little)
    }
}

/// A unit is read as it was written.
proof fn lemma_unit(b: Seq<u8>, i: int, u: int, little: bool)
    requires
        0 <= u < 0x10000,
        holds(b, i, unit_bytes(u, little)),
    ensures
        utf16_unit(b, little, i) == u,
{
    let s = b.subrange(i, i + 2);
    assert(s == unit_bytes(u, little));
    assert(s[0] == b[i] && s[1] == b[i + 1]);
    assert(0 <= u / 256 < 256);
    assert(u == (u / 256) * 256 + u % 256);
}

/// A character's number is none of a surrogate's.
proof fn lemma_char_range(c: char)
    ensures
        0 <= (c as int) <= 0x10ffff,
        !(0xd800 <= (c as int) && (c as int) < 0xe000),
{
    char_is_scalar(c);
    assert(c as u32 as int == c as int);
}

/// Units are read as the text that they were written of.
proof fn lemma_utf16_read(b: Seq<u8>, little: bool, i: int, text: Seq<char>)
    requires
        holds(b, i, utf16_bytes(text, little)),
        i + utf16_bytes(text, little).len() == b.len(),
    ensures
        utf16_text(b, little, i) == Some(text),
    decreases text.len(),
{
    if text.len() == 0 {
        assert(text =~= Seq::<char>::empty());
    } else {
        let c = text[0];
        let n = c as int;
        let more = text.skip(1);
        lemma_char_range(c);
        let w = char_bytes(c, little);
        lemma_holds(b, i, w, utf16_bytes(more, little));
        lemma_utf16_read(b, little, i + w.len(), more);
        assert(text =~= seq![c] + more);
        if n < 0x10000 {
            lemma_unit(b, i, n, little);
        } else {
            let high = 0xd800 + (n - 0x10000) / 1024;
            let low = 0xdc00 + (n - 0x10000) % 1024;
            assert(0 <= (n - 0x10000) / 1024 < 0x400);
            lemma_holds(b, i, unit_bytes(high, little), unit_bytes(low, little));
            lemma_unit(b, i, high, little);
            lemma_unit(b, i + 2, low, little);
            assert(0x10000 + (high - 0xd800) * 0x400 + (low - 0xdc00) == n);
        }
    }
}

/// A text is read from each encoding: behind the mark of its byte order, which
/// eight-bit text may have and sixteen-bit text must have.
pub proof fn lemma_text_read(text: Seq<char>)
    ensures
        decoded_text(seq![0xffu8, 0xfe] + utf16_bytes(text, true), CsvEncoding::Utf16Le) == Some(
            text,
        ),
        decoded_text(seq![0xfeu8, 0xff] + utf16_bytes(text, false), CsvEncoding::Utf16Be) == Some(
            text,
        ),
        decoded_text(seq![0xefu8, 0xbb, 0xbf] + encode_utf8(text), CsvEncoding::Utf8) == Some(
            text,
        ),
        !(encode_utf8(text).len() >= 3 && encode_utf8(text)[0] == 0xef && encode_utf8(text)[1]
            == 0xbb && encode_utf8(text)[2] == 0xbf) ==> decoded_text(
            encode_utf8(text),
            CsvEncoding::Utf8,
        ) == Some(text),
{
    let a = utf16_bytes(text, true);
    let b = utf16_bytes(text, false);
    let e = encode_utf8(text);
    let ma = seq![0xffu8, 0xfe] + a;
    let mb = seq![0xfeu8, 0xff] + b;
    let me = seq![0xefu8, 0xbb, 0xbf] + e;
    assert(ma.skip(2) =~= a);
    assert(mb.skip(2) =~= b);
    assert(me.skip(3) =~= e);
    assert(ma[0] == 0xff && ma[1] == 0xfe);
    assert(mb[0] == 0xfe && mb[1] == 0xff);
    assert(me[0] == 0xef && me[1] == 0xbb && me[2] == 0xbf);
    assert(a.subrange(0, a.len() as int) =~= a);
    assert(b.subrange(0, b.len() as int) =~= b);
    lemma_utf16_read(a, true, 0, text);
    lemma_utf16_read(b, false, 0, text);
    encode_utf8_valid_utf8(text);
    encode_utf8_decode_utf8(text);
}

/// Sixteen-bit text without its mark, or with the other order's, is refused.
pub proof fn lemma_no_mark(b: Seq<u8>)
    ensures
        decoded_text(b, CsvEncoding::Utf16Le) is Some ==> b.len() >= 2 && b[0] == 0xff && b[1]
            == 0xfe,
        decoded_text(b, CsvEncoding::Utf16Be) is Some ==> b.len() >= 2 && b[0] == 0xfe && b[1]
            == 0xff,
{
}

} // verus!
