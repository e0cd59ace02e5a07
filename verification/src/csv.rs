//! The CSV bridge's codec: encoding a table's records as comma-separated
//! text and parsing such text back.
//!
//! A field holding a comma, a double quote, or a line break is written
//! quoted, with embedded quotes doubled; every record ends with a line
//! break.  Parsing accepts quoted and unquoted fields and rejects malformed
//! text (a stray quote, an unterminated quoted field).  Encoding then
//! parsing gives back exactly the same records.

use vstd::prelude::*;
use crate::table::{Cell, CellV, ColumnV, Table, TableV, row_view, table_wf};
use crate::style::{Alignment, TableStyle};
use crate::text::{append_chars, chars_to_string, string_to_chars};

verus! {

/// Whether a field must be written quoted.
pub open spec fn needs_quote(f: Seq<char>) -> bool {
    exists|i: int|
        0 <= i < f.len() && ((#[trigger] f[i]) == ',' || f[i] == '"' || f[i] == '\n' || f[i]
            == '\r')
}

/// The field's characters with every double quote doubled.
pub open spec fn escape_quotes(f: Seq<char>) -> Seq<char>
    decreases f.len(),
{
    if f.len() == 0 {
        Seq::empty()
    } else if f[0] == '"' {
        seq!['"', '"'] + escape_quotes(f.skip(1))
    } else {
        seq![f[0]] + escape_quotes(f.skip(1))
    }
}

/// One encoded field: quoted exactly when it needs to be.
pub open spec fn encode_field(f: Seq<char>) -> Seq<char> {
    if needs_quote(f) {
        seq!['"'] + escape_quotes(f) + seq!['"']
    } else {
        f
    }
}

/// One encoded record from field `i` on: fields separated by commas, a line
/// break at the end.
pub open spec fn encode_record_from(fs: Seq<Seq<char>>, i: int) -> Seq<char>
    decreases fs.len() - i,
{
    if i < 0 || i >= fs.len() {
        seq!['\n']
    } else {
        let sep: Seq<char> = if i > 0 {
            seq![',']
        } else {
            Seq::empty()
        };
        sep + encode_field(fs[i]) + encode_record_from(fs, i + 1)
    }
}

/// The encoded records from record `k` on.
pub open spec fn encode_records_from(rs: Seq<Seq<Seq<char>>>, k: int) -> Seq<char>
    decreases rs.len() - k,
{
    if k < 0 || k >= rs.len() {
        Seq::empty()
    } else {
        encode_record_from(rs[k], 0) + encode_records_from(rs, k + 1)
    }
}

/// An unquoted field: everything up to the next comma or line break; a
/// quote or carriage return here is malformed.
pub open spec fn parse_unquoted(s: Seq<char>) -> Option<(Seq<char>, Seq<char>)>
    decreases s.len(),
{
    if s.len() == 0 {
        Some((Seq::empty(), Seq::empty()))
    } else if s[0] == ',' || s[0] == '\n' {
        Some((Seq::empty(), s))
    } else if s[0] == '"' || s[0] == '\r' {
        None
    } else {
        match parse_unquoted(s.skip(1)) {
            Some(p) => Some((seq![s[0]] + p.0, p.1)),
            None => None,
        }
    }
}

/// The rest of a quoted field, after its opening quote: doubled quotes read
/// as one, a single quote closes the field, an unterminated field is
/// malformed.
pub open spec fn parse_quoted(s: Seq<char>) -> Option<(Seq<char>, Seq<char>)>
    decreases s.len(),
{
    if s.len() == 0 {
        None
    } else if s[0] == '"' {
        if s.len() >= 2 && s[1] == '"' {
            match parse_quoted(s.skip(2)) {
                Some(p) => Some((seq!['"'] + p.0, p.1)),
                None => None,
            }
        } else {
            Some((Seq::empty(), s.skip(1)))
        }
    } else {
        match parse_quoted(s.skip(1)) {
            Some(p) => Some((seq![s[0]] + p.0, p.1)),
            None => None,
        }
    }
}

/// One field: quoted when it opens with a quote, unquoted otherwise.  A
/// quoted field must be followed by a comma, a line break, or the end.
pub open spec fn parse_field(s: Seq<char>) -> Option<(Seq<char>, Seq<char>)> {
    if s.len() > 0 && s[0] == '"' {
        match parse_quoted(s.skip(1)) {
            Some(p) => {
                if p.1.len() == 0 || p.1[0] == ',' || p.1[0] == '\n' {
                    Some(p)
                } else {
                    None
                }
            },
            None => None,
        }
    } else {
        parse_unquoted(s)
    }
}

proof fn lemma_parse_unquoted_rest(s: Seq<char>)
    ensures
        parse_unquoted(s) matches Some(p) ==> p.1.len() <= s.len(),
    decreases s.len(),
{
    if s.len() > 0 && s[0] != ',' && s[0] != '\n' && s[0] != '"' && s[0] != '\r' {
        lemma_parse_unquoted_rest(s.skip(1));
    }
}

proof fn lemma_parse_quoted_rest(s: Seq<char>)
    ensures
        parse_quoted(s) matches Some(p) ==> p.1.len() < s.len(),
    decreases s.len(),
{
    if s.len() > 0 {
        if s[0] == '"' {
            if s.len() >= 2 && s[1] == '"' {
                lemma_parse_quoted_rest(s.skip(2));
            }
        } else {
            lemma_parse_quoted_rest(s.skip(1));
        }
    }
}

proof fn lemma_parse_field_rest(s: Seq<char>)
    ensures
        parse_field(s) matches Some(p) ==> p.1.len() <= s.len(),
{
    lemma_parse_unquoted_rest(s);
    if s.len() > 0 && s[0] == '"' {
        lemma_parse_quoted_rest(s.skip(1));
    }
}

/// One record: fields separated by commas, ended by a line break or the end
/// of the text.
pub open spec fn parse_record(s: Seq<char>) -> Option<(Seq<Seq<char>>, Seq<char>)>
    decreases s.len(),
    via parse_record_decreases
{
    match parse_field(s) {
        None => None,
        Some(p) => {
            if p.1.len() == 0 {
                Some((seq![p.0], Seq::empty()))
            } else if p.1[0] == '\n' {
                Some((seq![p.0], p.1.skip(1)))
            } else {
                match parse_record(p.1.skip(1)) {
                    Some(q) => Some((seq![p.0] + q.0, q.1)),
                    None => None,
                }
            }
        },
    }
}

#[via_fn]
proof fn parse_record_decreases(s: Seq<char>) {
    lemma_parse_field_rest(s);
}

proof fn lemma_parse_record_rest(s: Seq<char>)
    ensures
        parse_record(s) matches Some(p) ==> p.1.len() < s.len() || s.len() == 0,
    decreases s.len(),
{
    lemma_parse_field_rest(s);
    match parse_field(s) {
        None => {},
        Some(p) => {
            if p.1.len() > 0 && p.1[0] != '\n' {
                lemma_parse_record_rest(p.1.skip(1));
            }
        },
    }
}

/// All records of a text; the empty text holds no records.
pub open spec fn parse_records(s: Seq<char>) -> Option<Seq<Seq<Seq<char>>>>
    decreases s.len(),
    via parse_records_decreases
{
    if s.len() == 0 {
        Some(Seq::empty())
    } else {
        match parse_record(s) {
            None => None,
            Some(p) => match parse_records(p.1) {
                Some(rs) => Some(seq![p.0] + rs),
                None => None,
            },
        }
    }
}

#[via_fn]
proof fn parse_records_decreases(s: Seq<char>) {
    lemma_parse_record_rest(s);
}

/// An unquoted field reads back unchanged when the text that follows opens
/// with its delimiter.
proof fn lemma_unquoted_round_trip(f: Seq<char>, rest: Seq<char>)
    requires
        !needs_quote(f),
        rest.len() == 0 || rest[0] == ',' || rest[0] == '\n',
    ensures
        parse_unquoted(f + rest) == Some((f, rest)),
    decreases f.len(),
{
    let s = f + rest;
    if f.len() == 0 {
        assert(s =~= rest);
        if rest.len() == 0 {
            assert(parse_unquoted(s) == Some((Seq::<char>::empty(), Seq::<char>::empty())));
            assert(f =~= Seq::<char>::empty());
        }
    } else {
        assert(s[0] == f[0]);
        assert(f[0] != ',' && f[0] != '"' && f[0] != '\n' && f[0] != '\r');
        assert(!needs_quote(f.skip(1))) by {
            if needs_quote(f.skip(1)) {
                let w = choose|w: int|
                    0 <= w < f.skip(1).len() && ((#[trigger] f.skip(1)[w]) == ',' || f.skip(1)[w]
                        == '"' || f.skip(1)[w] == '\n' || f.skip(1)[w] == '\r');
                assert(f[w + 1] == f.skip(1)[w]);
            }
        }
        lemma_unquoted_round_trip(f.skip(1), rest);
        assert(s.skip(1) =~= f.skip(1) + rest);
        assert(seq![f[0]] + f.skip(1) =~= f);
    }
}

/// A quoted field's escaped body reads back unchanged up to its closing
/// quote.
proof fn lemma_quoted_round_trip(f: Seq<char>, rest: Seq<char>)
    requires
        rest.len() == 0 || rest[0] == ',' || rest[0] == '\n',
    ensures
        parse_quoted(escape_quotes(f) + seq!['"'] + rest) == Some((f, rest)),
    decreases f.len(),
{
    let s = escape_quotes(f) + seq!['"'] + rest;
    if f.len() == 0 {
        assert(s =~= seq!['"'] + rest);
        assert(s[0] == '"');
        if s.len() >= 2 {
            assert(s[1] == rest[0]);
            assert(s[1] != '"');
        }
        assert(s.skip(1) =~= rest);
        assert(f =~= Seq::<char>::empty());
    } else if f[0] == '"' {
        assert(escape_quotes(f) == seq!['"', '"'] + escape_quotes(f.skip(1)));
        assert(s[0] == '"' && s[1] == '"');
        assert(s.len() >= 2);
        lemma_quoted_round_trip(f.skip(1), rest);
        assert(s.skip(2) =~= escape_quotes(f.skip(1)) + seq!['"'] + rest);
        assert(seq!['"'] + f.skip(1) =~= f);
    } else {
        assert(escape_quotes(f) == seq![f[0]] + escape_quotes(f.skip(1)));
        assert(s[0] == f[0]);
        lemma_quoted_round_trip(f.skip(1), rest);
        assert(s.skip(1) =~= escape_quotes(f.skip(1)) + seq!['"'] + rest);
        assert(seq![f[0]] + f.skip(1) =~= f);
    }
}

/// An encoded field reads back unchanged when the text that follows opens
/// with its delimiter.
proof fn lemma_field_round_trip(f: Seq<char>, rest: Seq<char>)
    requires
        rest.len() == 0 || rest[0] == ',' || rest[0] == '\n',
    ensures
        parse_field(encode_field(f) + rest) == Some((f, rest)),
{
    let s = encode_field(f) + rest;
    if needs_quote(f) {
        assert(s[0] == '"');
        lemma_quoted_round_trip(f, rest);
        assert(s.skip(1) =~= escape_quotes(f) + seq!['"'] + rest);
    } else {
        assert(s =~= f + rest);
        lemma_unquoted_round_trip(f, rest);
        if f.len() > 0 {
            assert(s[0] == f[0]);
            assert(f[0] != '"');
        } else {
            if s.len() > 0 {
                assert(s[0] == rest[0]);
                assert(s[0] != '"');
            }
        }
    }
}

/// An encoded record reads back unchanged, leaving exactly the text that
/// followed it.
proof fn lemma_record_round_trip(fs: Seq<Seq<char>>, i: int, rest: Seq<char>)
    requires
        0 <= i < fs.len(),
    ensures
        parse_record(encode_record_from(fs, i).skip(if i > 0 { 1int } else { 0int }) + rest)
            == Some((fs.skip(i), rest)),
    decreases fs.len() - i,
{
    let enc = encode_record_from(fs, i).skip(if i > 0 { 1int } else { 0int });
    if i == fs.len() - 1 {
        assert(encode_record_from(fs, i + 1) =~= seq!['\n']);
        assert(enc =~= encode_field(fs[i]) + seq!['\n']);
        let s = enc + rest;
        assert(s =~= encode_field(fs[i]) + (seq!['\n'] + rest));
        lemma_field_round_trip(fs[i], seq!['\n'] + rest);
        assert((seq!['\n'] + rest)[0] == '\n');
        assert((seq!['\n'] + rest).skip(1) =~= rest);
        assert(seq![fs[i]] =~= fs.skip(i));
    } else {
        lemma_record_round_trip(fs, i + 1, rest);
        let tail = encode_record_from(fs, i + 1).skip(1) + rest;
        assert(encode_record_from(fs, i + 1)[0] == ',');
        let s = enc + rest;
        assert(s =~= encode_field(fs[i]) + (encode_record_from(fs, i + 1) + rest));
        assert(encode_record_from(fs, i + 1) + rest =~= seq![','] + tail);
        assert(s =~= encode_field(fs[i]) + (seq![','] + tail));
        lemma_field_round_trip(fs[i], seq![','] + tail);
        assert((seq![','] + tail)[0] == ',');
        assert((seq![','] + tail).skip(1) =~= tail);
        assert(seq![fs[i]] + fs.skip(i + 1) =~= fs.skip(i));
    }
}

/// Law: encoding records and parsing the text back yields exactly the same
/// records, provided every record has at least one field (as every table
/// with at least one column does).
pub proof fn lemma_records_round_trip(rs: Seq<Seq<Seq<char>>>, k: int)
    requires
        0 <= k <= rs.len(),
        forall|q: int| 0 <= q < rs.len() ==> (#[trigger] rs[q]).len() >= 1,
    ensures
        parse_records(encode_records_from(rs, k)) == Some(rs.skip(k)),
    decreases rs.len() - k,
{
    if k == rs.len() {
        assert(encode_records_from(rs, k) =~= Seq::<char>::empty());
        assert(rs.skip(k) =~= Seq::<Seq<Seq<char>>>::empty());
    } else {
        lemma_records_round_trip(rs, k + 1);
        let enc_rest = encode_records_from(rs, k + 1);
        lemma_record_round_trip(rs[k], 0, enc_rest);
        assert(encode_record_from(rs[k], 0).skip(0) =~= encode_record_from(rs[k], 0));
        assert(encode_records_from(rs, k) =~= encode_record_from(rs[k], 0) + enc_rest);
        assert(rs[k].skip(0) =~= rs[k]);
        // The encoded record is nonempty, so the parse takes the record branch.
        lemma_encode_record_nonempty(rs[k]);
        assert(seq![rs[k]] + rs.skip(k + 1) =~= rs.skip(k));
    }
}

proof fn lemma_encode_record_nonempty(fs: Seq<Seq<char>>)
    ensures
        encode_record_from(fs, 0).len() >= 1,
    decreases fs.len(),
{
    lemma_encode_record_from_nonempty(fs, 0);
}

proof fn lemma_encode_record_from_nonempty(fs: Seq<Seq<char>>, i: int)
    ensures
        encode_record_from(fs, i).len() >= 1,
    decreases fs.len() - i,
{
    if 0 <= i && i < fs.len() {
        lemma_encode_record_from_nonempty(fs, i + 1);
    }
}

/// The records a table writes out: the column headers first, then each
/// row's cell contents.
pub open spec fn table_records(t: TableV) -> Seq<Seq<Seq<char>>> {
    seq![t.columns.map_values(|c: ColumnV| c.header)] + t.rows.map_values(
        |r: Seq<CellV>| r.map_values(|c: CellV| c.content),
    )
}

/// Law: a table with at least one column writes CSV text that parses back
/// to exactly its records — headers and cell contents, in order.
pub proof fn lemma_table_csv_round_trip(t: TableV)
    requires
        table_wf(t),
        t.columns.len() >= 1,
    ensures
        parse_records(encode_records_from(table_records(t), 0)) == Some(table_records(t)),
        records_rectangular(table_records(t)),
{
    let rs = table_records(t);
    assert forall|q: int| 0 <= q < rs.len() implies (#[trigger] rs[q]).len() >= 1 && rs[q].len()
        == rs[0].len() by {
        if q > 0 {
            assert(rs[q] == t.rows[q - 1].map_values(|c: CellV| c.content));
            assert(t.rows[q - 1].len() == t.columns.len());
        }
    }
    lemma_records_round_trip(rs, 0);
    assert(rs.skip(0) =~= rs);
}

/// The nested sequences viewed by parsed records.
pub open spec fn deep_records(v: Seq<Vec<Vec<char>>>) -> Seq<Seq<Seq<char>>> {
    v.map_values(|x: Vec<Vec<char>>| crate::text::deep_chars(x@))
}

/// Whether the field must be quoted when written.
#[verifier::loop_isolation(false)]
fn needs_quote_exec(f: &Vec<char>) -> (r: bool)
    ensures
        r == needs_quote(f@),
{
    let mut i: usize = 0;
    while i < f.len()
        invariant
            i <= f@.len(),
            forall|j: int| 0 <= j < i ==> !((#[trigger] f@[j]) == ',' || f@[j] == '"' || f@[j]
                == '\n' || f@[j] == '\r'),
        decreases f@.len() - i,
    {
        let c = f[i];
        if c == ',' || c == '"' || c == '\n' || c == '\r' {
            return true;
        }
        i = i + 1;
    }
    false
}

/// Appends the field's characters with every double quote doubled.
#[verifier::loop_isolation(false)]
fn append_escaped(buf: &mut Vec<char>, f: &Vec<char>)
    ensures
        final(buf)@ == old(buf)@ + escape_quotes(f@),
{
    let ghost target = old(buf)@ + escape_quotes(f@);
    let mut i: usize = 0;
    proof {
        assert(f@.skip(0) =~= f@);
    }
    while i < f.len()
        invariant
            i <= f@.len(),
            buf@ + escape_quotes(f@.skip(i as int)) == target,
        decreases f@.len() - i,
    {
        let ghost buf_prev = buf@;
        let c = f[i];
        if c == '"' {
            buf.push('"');
            buf.push('"');
        } else {
            buf.push(c);
        }
        i = i + 1;
        proof {
            let rest = f@.skip(i - 1);
            assert(rest[0] == f@[i - 1]);
            assert(rest.skip(1) =~= f@.skip(i as int));
            if f@[i - 1] == '"' {
                assert(buf@ =~= buf_prev + seq!['"', '"']);
                assert(escape_quotes(rest) == seq!['"', '"'] + escape_quotes(rest.skip(1)));
            } else {
                assert(buf@ =~= buf_prev + seq![f@[i - 1]]);
                assert(escape_quotes(rest) == seq![f@[i - 1]] + escape_quotes(rest.skip(1)));
            }
            assert(buf@ + escape_quotes(f@.skip(i as int)) =~= target);
        }
    }
    proof {
        assert(f@.skip(f@.len() as int) =~= Seq::<char>::empty());
        assert(buf@ =~= target);
    }
}

/// Appends one encoded field.
fn append_field(buf: &mut Vec<char>, f: &Vec<char>)
    ensures
        final(buf)@ == old(buf)@ + encode_field(f@),
{
    if needs_quote_exec(f) {
        buf.push('"');
        append_escaped(buf, f);
        buf.push('"');
        proof {
            assert(buf@ =~= old(buf)@ + encode_field(f@));
        }
    } else {
        append_chars(buf, f);
    }
}

/// Appends one encoded record: the fields separated by commas, a line break
/// at the end.
#[verifier::loop_isolation(false)]
fn append_record(buf: &mut Vec<char>, fields: &Vec<Vec<char>>)
    ensures
        final(buf)@ == old(buf)@ + encode_record_from(crate::text::deep_chars(fields@), 0),
{
    let ghost fs = crate::text::deep_chars(fields@);
    let ghost target = old(buf)@ + encode_record_from(fs, 0);
    let mut i: usize = 0;
    proof {
        assert(buf@ + encode_record_from(fs, 0) =~= target);
    }
    while i < fields.len()
        invariant
            i <= fields@.len(),
            buf@ + encode_record_from(fs, i as int) == target,
        decreases fields@.len() - i,
    {
        let ghost buf_prev = buf@;
        if i > 0 {
            buf.push(',');
        }
        append_field(buf, &fields[i]);
        i = i + 1;
        proof {
            let sep: Seq<char> = if i - 1 > 0 {
                seq![',']
            } else {
                Seq::<char>::empty()
            };
            assert(buf@ =~= buf_prev + sep + encode_field(fs[i - 1]));
            assert(encode_record_from(fs, i - 1) == sep + encode_field(fs[i - 1])
                + encode_record_from(fs, i as int));
            assert(buf@ + encode_record_from(fs, i as int) =~= target);
        }
    }
    buf.push('\n');
    proof {
        assert(encode_record_from(fs, fields@.len() as int) =~= seq!['\n']);
        assert(buf@ =~= target);
    }
}

impl Table {
    /// The table's records as CSV text: the column headers first, then each
    /// row's cell contents, every record ended by a line break and every
    /// field quoted exactly when it needs to be.
    #[verifier::loop_isolation(false)]
    #[verifier::rlimit(100)]
    pub fn to_csv_string(&self) -> (r: String)
        requires
            self.wf(),
        ensures
            r@ == encode_records_from(table_records(self@), 0),
    {
        let ghost rs = table_records(self@);
        let mut buf: Vec<char> = Vec::new();
        // The header record.
        let mut headers: Vec<Vec<char>> = Vec::new();
        let mut c: usize = 0;
        while c < self.columns.len()
            invariant
                c <= self.columns@.len(),
                crate::text::deep_chars(headers@) == rs[0].take(c as int),
            decreases self.columns@.len() - c,
        {
            let ghost prev = crate::text::deep_chars(headers@);
            headers.push(string_to_chars(self.columns[c].header.as_str()));
            c = c + 1;
            proof {
                assert(crate::text::deep_chars(headers@) =~= prev.push(
                    headers@[headers@.len() - 1]@,
                ));
                assert(rs[0].take(c as int) =~= rs[0].take(c - 1).push(rs[0][c - 1]));
                assert(rs[0][c - 1] == self@.columns[c - 1].header);
            }
        }
        proof {
            assert(rs[0].take(rs[0].len() as int) =~= rs[0]);
            assert(crate::text::deep_chars(headers@) =~= rs[0]);
        }
        append_record(&mut buf, &headers);
        proof {
            assert(buf@ + encode_records_from(rs, 1) =~= encode_records_from(rs, 0));
        }
        // The data records.
        let mut k: usize = 0;
        while k < self.rows.len()
            invariant
                k <= self.rows@.len(),
                buf@ + encode_records_from(rs, k as int + 1) == encode_records_from(rs, 0),
            decreases self.rows@.len() - k,
        {
            let ghost buf_prev = buf@;
            proof {
                assert(self@.rows[k as int].len() == self@.columns.len());
                assert(row_view(self.rows@[k as int]@).len() == self.rows@[k as int]@.len());
            }
            let row = &self.rows[k];
            let mut fields: Vec<Vec<char>> = Vec::new();
            let mut j: usize = 0;
            while j < row.len()
                invariant
                    j <= row@.len(),
                    k < self.rows@.len(),
                    row == &self.rows@[k as int],
                    crate::text::deep_chars(fields@) == rs[k as int + 1].take(j as int),
                decreases row@.len() - j,
            {
                let ghost prev = crate::text::deep_chars(fields@);
                fields.push(string_to_chars(row[j].content.as_str()));
                j = j + 1;
                proof {
                    assert(crate::text::deep_chars(fields@) =~= prev.push(
                        fields@[fields@.len() - 1]@,
                    ));
                    assert(rs[k as int + 1].take(j as int) =~= rs[k as int + 1].take(j - 1).push(
                        rs[k as int + 1][j - 1],
                    ));
                    assert(rs[k as int + 1][j - 1] == self@.rows[k as int][j - 1].content);
                }
            }
            proof {
                assert(rs[k as int + 1].take(rs[k as int + 1].len() as int) =~= rs[k as int + 1]);
                assert(crate::text::deep_chars(fields@) =~= rs[k as int + 1]);
            }
            append_record(&mut buf, &fields);
            k = k + 1;
            proof {
                assert(buf@ =~= buf_prev + encode_record_from(rs[k as int], 0));
                assert(encode_records_from(rs, k as int) == encode_record_from(rs[k as int], 0)
                    + encode_records_from(rs, k as int + 1));
                assert(buf@ + encode_records_from(rs, k as int + 1) =~= encode_records_from(rs, 0));
            }
        }
        proof {
            assert(encode_records_from(rs, rs.len() as int) =~= Seq::<char>::empty());
            assert(buf@ =~= encode_records_from(rs, 0));
        }
        chars_to_string(&buf)
    }
}

/// An unquoted field starting at `i`, as [`parse_unquoted`] describes.
fn parse_unquoted_at(v: &Vec<char>, i: usize) -> (r: Option<(Vec<char>, usize)>)
    requires
        i <= v.len(),
    ensures
        match r {
            Some(p) => i <= p.1 <= v@.len() && parse_unquoted(v@.skip(i as int)) == Some(
                (p.0@, v@.skip(p.1 as int)),
            ),
            None => parse_unquoted(v@.skip(i as int)) is None,
        },
    decreases v.len() - i,
{
    let ghost s = v@.skip(i as int);
    if i == v.len() {
        let f: Vec<char> = Vec::new();
        proof {
            assert(s =~= Seq::<char>::empty());
        }
        Some((f, i))
    } else {
        let c = v[i];
        proof {
            assert(s[0] == v@[i as int]);
        }
        if c == ',' || c == '\n' {
            let f: Vec<char> = Vec::new();
            proof {
                assert(f@ =~= Seq::<char>::empty());
            }
            Some((f, i))
        } else if c == '"' || c == '\r' {
            None
        } else {
            proof {
                assert(s.skip(1) =~= v@.skip(i as int + 1));
            }
            match parse_unquoted_at(v, i + 1) {
                Some((mut f, j)) => {
                    f.insert(0, c);
                    proof {
                        assert(f@ =~= seq![s[0]] + f@.skip(1));
                    }
                    Some((f, j))
                },
                None => None,
            }
        }
    }
}

/// The rest of a quoted field starting at `i` (after its opening quote), as
/// [`parse_quoted`] describes.
fn parse_quoted_at(v: &Vec<char>, i: usize) -> (r: Option<(Vec<char>, usize)>)
    requires
        i <= v.len(),
    ensures
        match r {
            Some(p) => i <= p.1 <= v@.len() && parse_quoted(v@.skip(i as int)) == Some(
                (p.0@, v@.skip(p.1 as int)),
            ),
            None => parse_quoted(v@.skip(i as int)) is None,
        },
    decreases v.len() - i,
{
    let ghost s = v@.skip(i as int);
    if i == v.len() {
        proof {
            assert(s =~= Seq::<char>::empty());
        }
        None
    } else {
        let c = v[i];
        proof {
            assert(s[0] == v@[i as int]);
        }
        if c == '"' {
            if i + 1 < v.len() && v[i + 1] == '"' {
                proof {
                    assert(s.len() >= 2 && s[1] == '"');
                    assert(s.skip(2) =~= v@.skip(i as int + 2));
                }
                match parse_quoted_at(v, i + 2) {
                    Some((mut f, j)) => {
                        f.insert(0, '"');
                        proof {
                            assert(f@ =~= seq!['"'] + f@.skip(1));
                        }
                        Some((f, j))
                    },
                    None => None,
                }
            } else {
                proof {
                    if s.len() >= 2 {
                        assert(s[1] == v@[i as int + 1]);
                    }
                    assert(s.skip(1) =~= v@.skip(i as int + 1));
                }
                let f: Vec<char> = Vec::new();
                proof {
                    assert(f@ =~= Seq::<char>::empty());
                }
                Some((f, i + 1))
            }
        } else {
            proof {
                assert(s.skip(1) =~= v@.skip(i as int + 1));
            }
            match parse_quoted_at(v, i + 1) {
                Some((mut f, j)) => {
                    f.insert(0, c);
                    proof {
                        assert(f@ =~= seq![s[0]] + f@.skip(1));
                    }
                    Some((f, j))
                },
                None => None,
            }
        }
    }
}

/// One field starting at `i`, as [`parse_field`] describes.
fn parse_field_at(v: &Vec<char>, i: usize) -> (r: Option<(Vec<char>, usize)>)
    requires
        i <= v.len(),
    ensures
        match r {
            Some(p) => i <= p.1 <= v@.len() && parse_field(v@.skip(i as int)) == Some(
                (p.0@, v@.skip(p.1 as int)),
            ),
            None => parse_field(v@.skip(i as int)) is None,
        },
{
    let ghost s = v@.skip(i as int);
    if i < v.len() && v[i] == '"' {
        proof {
            assert(s[0] == '"');
            assert(s.skip(1) =~= v@.skip(i as int + 1));
        }
        match parse_quoted_at(v, i + 1) {
            Some((f, j)) => {
                if j == v.len() {
                    proof {
                        assert(v@.skip(j as int) =~= Seq::<char>::empty());
                    }
                    Some((f, j))
                } else if v[j] == ',' || v[j] == '\n' {
                    proof {
                        assert(v@.skip(j as int)[0] == v@[j as int]);
                    }
                    Some((f, j))
                } else {
                    proof {
                        assert(v@.skip(j as int)[0] == v@[j as int]);
                    }
                    None
                }
            },
            None => None,
        }
    } else {
        proof {
            if s.len() > 0 {
                assert(s[0] == v@[i as int]);
            }
        }
        parse_unquoted_at(v, i)
    }
}

/// One record starting at `i`, as [`parse_record`] describes.
#[verifier::rlimit(100)]
fn parse_record_at(v: &Vec<char>, i: usize) -> (r: Option<(Vec<Vec<char>>, usize)>)
    requires
        i <= v.len(),
    ensures
        match r {
            Some(p) => i <= p.1 <= v@.len() && parse_record(v@.skip(i as int)) == Some(
                (crate::text::deep_chars(p.0@), v@.skip(p.1 as int)),
            ),
            None => parse_record(v@.skip(i as int)) is None,
        },
    decreases v.len() - i,
{
    let ghost s = v@.skip(i as int);
    match parse_field_at(v, i) {
        None => None,
        Some((f, j)) => {
            if j == v.len() {
                let mut fs: Vec<Vec<char>> = Vec::new();
                let ghost fv = f@;
                fs.push(f);
                proof {
                    assert(v@.skip(j as int) =~= Seq::<char>::empty());
                    assert(crate::text::deep_chars(fs@) =~= seq![fv]);
                }
                Some((fs, j))
            } else if v[j] == '\n' {
                let mut fs: Vec<Vec<char>> = Vec::new();
                let ghost fv = f@;
                fs.push(f);
                proof {
                    assert(v@.skip(j as int)[0] == v@[j as int]);
                    assert(v@.skip(j as int).skip(1) =~= v@.skip(j as int + 1));
                    assert(crate::text::deep_chars(fs@) =~= seq![fv]);
                }
                Some((fs, j + 1))
            } else {
                proof {
                    assert(v@.skip(j as int)[0] == v@[j as int]);
                    assert(v@.skip(j as int).skip(1) =~= v@.skip(j as int + 1));
                }
                match parse_record_at(v, j + 1) {
                    Some((mut fs, j2)) => {
                        let ghost fv = f@;
                        let ghost fs_prev = crate::text::deep_chars(fs@);
                        fs.insert(0, f);
                        proof {
                            assert(crate::text::deep_chars(fs@) =~= seq![fv] + fs_prev);
                        }
                        Some((fs, j2))
                    },
                    None => None,
                }
            }
        },
    }
}

/// All records of the text, as [`parse_records`] describes: `None` when the
/// text is malformed.
#[verifier::rlimit(100)]
fn parse_records_at(v: &Vec<char>, i: usize) -> (r: Option<Vec<Vec<Vec<char>>>>)
    requires
        i <= v.len(),
    ensures
        match r {
            Some(rs) => parse_records(v@.skip(i as int)) == Some(deep_records(rs@)),
            None => parse_records(v@.skip(i as int)) is None,
        },
    decreases v.len() - i,
{
    let ghost s = v@.skip(i as int);
    if i == v.len() {
        let rs: Vec<Vec<Vec<char>>> = Vec::new();
        proof {
            assert(s =~= Seq::<char>::empty());
            assert(deep_records(rs@) =~= Seq::<Seq<Seq<char>>>::empty());
        }
        Some(rs)
    } else {
        match parse_record_at(v, i) {
            None => None,
            Some((fields, j)) => {
                proof {
                    lemma_parse_record_rest(s);
                    assert(v@.skip(j as int).len() < s.len());
                }
                match parse_records_at(v, j) {
                    Some(mut rs) => {
                        let ghost head = crate::text::deep_chars(fields@);
                        let ghost rs_prev = deep_records(rs@);
                        rs.insert(0, fields);
                        proof {
                            assert(deep_records(rs@) =~= seq![head] + rs_prev);
                        }
                        Some(rs)
                    },
                    None => None,
                }
            },
        }
    }
}

/// The records of a CSV text, each field as a string; `None` when the text
/// is malformed.
#[verifier::loop_isolation(false)]
pub fn parse_csv(text: &str) -> (r: Option<Vec<Vec<String>>>)
    ensures
        match r {
            Some(rows) => parse_records(text@) == Some(
                rows@.map_values(|x: Vec<String>| crate::text::deep_strings(x@)),
            ),
            None => parse_records(text@) is None,
        },
{
    let chars = string_to_chars(text);
    proof {
        assert(chars@.skip(0) =~= text@);
    }
    match parse_records_at(&chars, 0) {
        None => None,
        Some(raw) => {
            let mut rows: Vec<Vec<String>> = Vec::new();
            let mut k: usize = 0;
            while k < raw.len()
                invariant
                    k <= raw@.len(),
                    rows@.map_values(|x: Vec<String>| crate::text::deep_strings(x@))
                        == deep_records(raw@).take(k as int),
                decreases raw@.len() - k,
            {
                let ghost prev = rows@.map_values(|x: Vec<String>| crate::text::deep_strings(x@));
                let rec = &raw[k];
                let mut row: Vec<String> = Vec::new();
                let mut j: usize = 0;
                while j < rec.len()
                    invariant
                        j <= rec@.len(),
                        k < raw@.len(),
                        rec == &raw@[k as int],
                        crate::text::deep_strings(row@) == crate::text::deep_chars(rec@).take(
                            j as int,
                        ),
                    decreases rec@.len() - j,
                {
                    let ghost rprev = crate::text::deep_strings(row@);
                    row.push(chars_to_string(&rec[j]));
                    j = j + 1;
                    proof {
                        assert(crate::text::deep_strings(row@) =~= rprev.push(
                            row@[row@.len() - 1]@,
                        ));
                        assert(crate::text::deep_chars(rec@).take(j as int)
                            =~= crate::text::deep_chars(rec@).take(j - 1).push(
                            crate::text::deep_chars(rec@)[j - 1],
                        ));
                    }
                }
                proof {
                    assert(crate::text::deep_chars(rec@).take(rec@.len() as int)
                        =~= crate::text::deep_chars(rec@));
                    assert(crate::text::deep_strings(row@) =~= crate::text::deep_chars(rec@));
                }
                rows.push(row);
                k = k + 1;
                proof {
                    assert(rows@.map_values(|x: Vec<String>| crate::text::deep_strings(x@))
                        =~= prev.push(crate::text::deep_strings(rows@[rows@.len() - 1]@)));
                    assert(deep_records(raw@).take(k as int) =~= deep_records(raw@).take(
                        k - 1,
                    ).push(deep_records(raw@)[k - 1]));
                }
            }
            proof {
                assert(deep_records(raw@).take(raw@.len() as int) =~= deep_records(raw@));
            }
            Some(rows)
        },
    }
}

/// Whether every record has the same number of fields as the first.
pub open spec fn records_rectangular(rs: Seq<Seq<Seq<char>>>) -> bool {
    forall|q: int| 0 <= q < rs.len() ==> (#[trigger] rs[q]).len() == rs[0].len()
}

impl Table {
    /// A new table read from CSV text: the first record becomes the column
    /// headers (width ten, left aligned), the remaining records become rows,
    /// all with the borderless style.  `None` when the text is malformed or
    /// the records do not all have the same number of fields.
    #[verifier::loop_isolation(false)]
    #[verifier::rlimit(100)]
    pub fn from_csv_str(text: &str) -> (r: Option<Table>)
        ensures
            match parse_records(text@) {
                None => r is None,
                Some(rs) => {
                    if !records_rectangular(rs) {
                        r is None
                    } else {
                        r matches Some(t) && t.wf() && t@.style == TableStyle::Simple
                            && t@.columns.len() == (if rs.len() == 0 { 0int } else { rs[0].len() as int })
                            && (forall|j: int| 0 <= j < t@.columns.len() ==> (#[trigger] t@.columns[j]).header == rs[0][j]
                                && t@.columns[j].width == 10 && t@.columns[j].alignment is Left)
                            && t@.rows.len() == (if rs.len() == 0 { 0int } else { rs.len() - 1 })
                            && (forall|q: int, j: int| 0 <= q < t@.rows.len() && 0 <= j < t@.columns.len()
                                ==> (#[trigger] t@.rows[q][j]).content == rs[q + 1][j])
                    }
                },
            },
    {
        let parsed = parse_csv(text);
        let ghost prs = parse_records(text@);
        match parsed {
            None => None,
            Some(records) => {
                let ghost rs = records@.map_values(|x: Vec<String>| crate::text::deep_strings(x@));
                let mut t = Table::new(TableStyle::Simple);
                if records.len() == 0 {
                    proof {
                        assert(records_rectangular(rs));
                    }
                    return Some(t);
                }
                let width0 = records[0].len();
                // Every record must have the same number of fields.
                let mut q: usize = 1;
                while q < records.len()
                    invariant
                        1 <= q <= records@.len(),
                        records@.len() >= 1,
                        width0 == rs[0].len(),
                        forall|p: int| 0 <= p < q ==> (#[trigger] rs[p]).len() == rs[0].len(),
                    decreases records@.len() - q,
                {
                    if records[q].len() != width0 {
                        proof {
                            assert(rs[q as int].len() != rs[0].len());
                            assert(!records_rectangular(rs));
                        }
                        return None;
                    }
                    proof {
                        assert(rs[q as int].len() == crate::text::deep_strings(
                            records@[q as int]@,
                        ).len());
                    }
                    q = q + 1;
                }
                proof {
                    assert(records_rectangular(rs));
                }
                // The first record names the columns.
                let header_rec = &records[0];
                let mut j: usize = 0;
                while j < header_rec.len()
                    invariant
                        j <= header_rec@.len(),
                        header_rec == &records@[0],
                        t@.columns.len() == j,
                        t@.rows.len() == 0,
                        t@.style == TableStyle::Simple,
                        t.wf(),
                        forall|p: int| 0 <= p < j ==> (#[trigger] t@.columns[p]).header == rs[0][p]
                            && t@.columns[p].width == 10 && t@.columns[p].alignment is Left,
                    decreases header_rec@.len() - j,
                {
                    t.add_column(header_rec[j].as_str(), 10, Alignment::Left);
                    j = j + 1;
                    proof {
                        assert(rs[0][j - 1] == header_rec@[j - 1]@);
                    }
                }
                // The remaining records become rows.
                let mut k: usize = 1;
                while k < records.len()
                    invariant
                        1 <= k <= records@.len(),
                        t@.columns.len() == rs[0].len(),
                        forall|p: int| 0 <= p < t@.columns.len() ==> (#[trigger] t@.columns[p]).header
                            == rs[0][p] && t@.columns[p].width == 10 && t@.columns[p].alignment is Left,
                        t@.rows.len() == k - 1,
                        t@.style == TableStyle::Simple,
                        t.wf(),
                        records_rectangular(rs),
                        forall|p: int, jj: int| 0 <= p < t@.rows.len() && 0 <= jj < t@.columns.len()
                            ==> (#[trigger] t@.rows[p][jj]).content == rs[p + 1][jj],
                    decreases records@.len() - k,
                {
                    let rec = &records[k];
                    let mut row: Vec<Cell> = Vec::new();
                    let mut jj: usize = 0;
                    proof {
                        assert(rs[k as int].len() == rs[0].len());
                        assert(rs[k as int].len() == crate::text::deep_strings(
                            records@[k as int]@,
                        ).len());
                    }
                    while jj < rec.len()
                        invariant
                            jj <= rec@.len(),
                            k < records@.len(),
                            rec == &records@[k as int],
                            rec@.len() == rs[k as int].len(),
                            row@.len() == jj,
                            forall|p: int| 0 <= p < jj ==> (#[trigger] row_view(row@)[p]).content
                                == rs[k as int][p],
                        decreases rec@.len() - jj,
                    {
                        let ghost prev = row_view(row@);
                        row.push(Cell::new(rec[jj].as_str()));
                        jj = jj + 1;
                        proof {
                            assert(row_view(row@) =~= prev.push(row@[row@.len() - 1]@));
                            assert(rs[k as int][jj - 1] == rec@[jj - 1]@);
                        }
                    }
                    let ghost rows_before = t@.rows;
                    t.add_row(row);
                    k = k + 1;
                    proof {
                        assert forall|p: int, j2: int|
                            0 <= p < t@.rows.len() && 0 <= j2 < t@.columns.len() implies (
                        #[trigger] t@.rows[p][j2]).content == rs[p + 1][j2] by {
                            if p < rows_before.len() {
                                assert(rows_before[p][j2].content == rs[p + 1][j2]);
                            }
                        }
                    }
                }
                Some(t)
            },
        }
    }
}

} // verus!
