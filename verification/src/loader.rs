//! The CSV loader: comma-separated text with a header row is read into
//! records, and every row that does not fit the two recognized columns is
//! silently dropped.

use vstd::prelude::*;
use crate::number::{decimal_micros, find_byte, lemma_find_byte_at, parse_decimal};
use crate::record::{Record, RecordData, views};

verus! {

/// The ASCII line feed.
pub const BYTE_LF: u8 = 10;

/// The ASCII carriage return.
pub const BYTE_CR: u8 = 13;

/// The ASCII comma.
pub const BYTE_COMMA: u8 = 44;

/// The header label of the name column, the bytes of `name`.
pub open spec fn name_label() -> Seq<u8> {
    seq![110u8, 97u8, 109u8, 101u8]
}

/// The header label of the value column, the bytes of `value`.
pub open spec fn value_label() -> Seq<u8> {
    seq![118u8, 97u8, 108u8, 117u8, 101u8]
}

/// The views of a sequence of byte vectors.
pub open spec fn byte_views(s: Seq<Vec<u8>>) -> Seq<Seq<u8>> {
    s.map_values(|p: Vec<u8>| p@)
}

/// Splits `s` at every occurrence of `sep`: `n` separators give `n + 1`
/// parts, and none of the parts contains `sep`.
pub open spec fn split_on(s: Seq<u8>, sep: u8) -> Seq<Seq<u8>>
    decreases s.len(),
{
    let d = find_byte(s, sep);
    if 0 <= d < s.len() {
        seq![s.subrange(0, d)] + split_on(s.subrange(d + 1, s.len() as int), sep)
    } else {
        seq![s]
    }
}

/// A line with a trailing carriage return removed.
pub open spec fn strip_cr(line: Seq<u8>) -> Seq<u8> {
    if line.len() > 0 && line.last() == BYTE_CR {
        line.drop_last()
    } else {
        line
    }
}

/// Every line of a sequence with its trailing carriage return removed.
pub open spec fn strip_all(lines: Seq<Seq<u8>>) -> Seq<Seq<u8>> {
    lines.map_values(|l: Seq<u8>| strip_cr(l))
}

/// The lines of a file: split at line feeds, each line with a trailing
/// carriage return removed.
pub open spec fn file_lines(file: Seq<u8>) -> Seq<Seq<u8>> {
    strip_all(split_on(file, BYTE_LF))
}

/// The comma-separated fields of one line.
pub open spec fn line_fields(line: Seq<u8>) -> Seq<Seq<u8>> {
    split_on(line, BYTE_COMMA)
}

/// Index of the first field equal to `label`, or `fields.len()` when none
/// is.
pub open spec fn first_match(fields: Seq<Seq<u8>>, label: Seq<u8>) -> int
    decreases fields.len(),
{
    if fields.len() == 0 {
        0
    } else if fields[0] == label {
        0
    } else {
        1 + first_match(fields.drop_first(), label)
    }
}

/// The header fields of a file: the fields of its first line.
pub open spec fn spec_header(file: Seq<u8>) -> Seq<Seq<u8>> {
    line_fields(file_lines(file)[0])
}

/// The data rows of a file: every line but the first.
pub open spec fn data_rows(file: Seq<u8>) -> Seq<Seq<u8>> {
    file_lines(file).drop_first()
}

/// One data row read against the header: the row must have as many fields
/// as the header, the header must name both columns, and the value field
/// must be a decimal literal; otherwise the row yields nothing.
pub open spec fn parse_row(header: Seq<Seq<u8>>, line: Seq<u8>) -> Option<RecordData> {
    let fs = line_fields(line);
    let ni = first_match(header, name_label());
    let vi = first_match(header, value_label());
    if ni < header.len() && vi < header.len() && fs.len() == header.len() {
        match decimal_micros(fs[vi]) {
            Some(v) => Some(RecordData { name: fs[ni], value: v }),
            None => None,
        }
    } else {
        None
    }
}

/// True of the rows that yield a record.
pub open spec fn row_parses(header: Seq<Seq<u8>>) -> spec_fn(Seq<u8>) -> bool {
    |line: Seq<u8>| parse_row(header, line) is Some
}

/// The records of the data rows, in row order, keeping exactly the rows
/// that parse.
pub open spec fn load_rows(header: Seq<Seq<u8>>, rows: Seq<Seq<u8>>) -> Seq<RecordData>
    decreases rows.len(),
{
    if rows.len() == 0 {
        Seq::<RecordData>::empty()
    } else {
        let prev = load_rows(header, rows.drop_last());
        match parse_row(header, rows.last()) {
            Some(r) => prev.push(r),
            None => prev,
        }
    }
}

/// All records of a CSV file: the first line is the header, every later
/// line a data row.
pub open spec fn spec_load(file: Seq<u8>) -> Seq<RecordData> {
    load_rows(spec_header(file), data_rows(file))
}

/// As many records are loaded as there are rows that fit the schema:
/// malformed rows are dropped and nothing else.
pub proof fn lemma_load_count(header: Seq<Seq<u8>>, rows: Seq<Seq<u8>>)
    ensures
        load_rows(header, rows).len() == rows.filter(row_parses(header)).len(),
    decreases rows.len(),
{
    reveal(Seq::filter);
    if rows.len() > 0 {
        lemma_load_count(header, rows.drop_last());
    }
}

/// A header that misses either column yields no record at all.
proof fn lemma_load_rows_headerless(header: Seq<Seq<u8>>, rows: Seq<Seq<u8>>)
    requires
        first_match(header, name_label()) >= header.len() || first_match(header, value_label())
            >= header.len(),
    ensures
        load_rows(header, rows) == Seq::<RecordData>::empty(),
    decreases rows.len(),
{
    if rows.len() > 0 {
        lemma_load_rows_headerless(header, rows.drop_last());
    }
}

/// The spec `first_match` returns the index an exec scan stops at.
proof fn lemma_first_match_at(fields: Seq<Seq<u8>>, label: Seq<u8>, d: int)
    requires
        0 <= d <= fields.len(),
        forall|k: int| 0 <= k < d ==> fields[k] != label,
        d < fields.len() ==> fields[d] == label,
    ensures
        first_match(fields, label) == d,
    decreases fields.len(),
{
    if fields.len() > 0 && fields[0] != label {
        lemma_first_match_at(fields.drop_first(), label, d - 1);
    }
}

/// Byte-vector equality, decided by contents.
fn bytes_eq(a: &Vec<u8>, b: &Vec<u8>) -> (r: bool)
    ensures
        r <==> a@ == b@,
{
    if a.len() != b.len() {
        return false;
    }
    let mut i: usize = 0;
    while i < a.len()
        invariant
            i <= a@.len(),
            a@.len() == b@.len(),
            forall|k: int| 0 <= k < i ==> a@[k] == b@[k],
        decreases a@.len() - i,
    {
        if a[i] != b[i] {
            return false;
        }
        i = i + 1;
    }
    proof {
        assert(a@ =~= b@);
    }
    true
}

/// Splits the bytes at every occurrence of `sep`.
fn split_bytes(data: &Vec<u8>, sep: u8) -> (parts: Vec<Vec<u8>>)
    ensures
        byte_views(parts@) == split_on(data@, sep),
{
    let n = data.len();
    let mut parts: Vec<Vec<u8>> = Vec::new();
    let mut off: usize = 0;
    let mut done: bool = false;
    proof {
        assert(byte_views(parts@) =~= Seq::<Seq<u8>>::empty());
        assert(data@.skip(0) =~= data@);
    }
    while !done
        invariant
            off <= n,
            n == data@.len(),
            !done ==> split_on(data@, sep) == byte_views(parts@) + split_on(
                data@.skip(off as int),
                sep,
            ),
            done ==> split_on(data@, sep) == byte_views(parts@),
        decreases n - off + (if done {
            0int
        } else {
            1int
        }),
    {
        let mut i: usize = off;
        while i < n && data[i] != sep
            invariant
                off <= i <= n,
                n == data@.len(),
                forall|k: int| off <= k < i ==> data@[k] != sep,
            decreases n - i,
        {
            i = i + 1;
        }
        let mut part: Vec<u8> = Vec::new();
        let mut j: usize = off;
        while j < i
            invariant
                off <= j <= i <= n,
                n == data@.len(),
                part@ == data@.subrange(off as int, j as int),
            decreases i - j,
        {
            let b = data[j];
            part.push(b);
            proof {
                assert(data@.subrange(off as int, j + 1) =~= data@.subrange(
                    off as int,
                    j as int,
                ).push(data@[j as int]));
            }
            j = j + 1;
        }
        let ghost rest = data@.skip(off as int);
        let ghost oldparts = parts@;
        proof {
            lemma_find_byte_at(rest, sep, i - off);
            assert(rest.subrange(0, i - off) =~= data@.subrange(off as int, i as int));
            if i < n {
                assert(rest.subrange(i - off + 1, rest.len() as int) =~= data@.skip(i + 1));
            } else {
                assert(rest.subrange(0, i - off) =~= rest);
            }
        }
        parts.push(part);
        proof {
            assert(byte_views(parts@) =~= byte_views(oldparts).push(part@));
        }
        if i < n {
            off = i + 1;
            proof {
                assert(byte_views(oldparts).push(part@) + split_on(data@.skip(off as int), sep)
                    =~= byte_views(oldparts) + (seq![part@] + split_on(
                    data@.skip(off as int),
                    sep,
                )));
            }
        } else {
            done = true;
            proof {
                assert(byte_views(oldparts).push(part@) =~= byte_views(oldparts) + seq![part@]);
            }
        }
    }
    parts
}

/// Removes one trailing carriage return from every line.
fn strip_crs(lines: Vec<Vec<u8>>) -> (out: Vec<Vec<u8>>)
    ensures
        byte_views(out@) == strip_all(byte_views(lines@)),
{
    let ghost orig = lines@;
    let mut rest = lines;
    let mut out: Vec<Vec<u8>> = Vec::new();
    while rest.len() > 0
        invariant
            out@.len() + rest@.len() == orig.len(),
            forall|k: int| 0 <= k < rest@.len() ==> rest@[k] == orig[out@.len() + k],
            forall|k: int| 0 <= k < out@.len() ==> out@[k]@ == strip_cr(#[trigger] orig[k]@),
        decreases rest@.len(),
    {
        let mut line = rest.remove(0);
        if line.len() > 0 && line[line.len() - 1] == BYTE_CR {
            proof {
                assert(line@.subrange(0, line@.len() - 1) =~= line@.drop_last());
            }
            line.pop();
        }
        out.push(line);
    }
    proof {
        assert(byte_views(out@) =~= strip_all(byte_views(orig)));
    }
    out
}

/// Index of the first field equal to `label`, or the field count when none
/// is.
fn find_field(fields: &Vec<Vec<u8>>, label: &Vec<u8>) -> (r: usize)
    ensures
        r == first_match(byte_views(fields@), label@),
        r <= fields@.len(),
{
    let mut i: usize = 0;
    while i < fields.len()
        invariant
            i <= fields@.len(),
            forall|k: int| 0 <= k < i ==> byte_views(fields@)[k] != label@,
        decreases fields@.len() - i,
    {
        if bytes_eq(&fields[i], label) {
            proof {
                lemma_first_match_at(byte_views(fields@), label@, i as int);
            }
            return i;
        }
        i = i + 1;
    }
    proof {
        lemma_first_match_at(byte_views(fields@), label@, fields@.len() as int);
    }
    fields.len()
}

/// The bytes of the name column's header label.
fn name_label_exec() -> (r: Vec<u8>)
    ensures
        r@ == name_label(),
{
    let r: Vec<u8> = vec![110u8, 97u8, 109u8, 101u8];
    proof {
        assert(r@ =~= name_label());
    }
    r
}

/// The bytes of the value column's header label.
fn value_label_exec() -> (r: Vec<u8>)
    ensures
        r@ == value_label(),
{
    let r: Vec<u8> = vec![118u8, 97u8, 108u8, 117u8, 101u8];
    proof {
        assert(r@ =~= value_label());
    }
    r
}

/// Loads the records of a CSV file given as bytes.
///
/// The first line is the header; its fields named `name` and `value` fix
/// the two columns. Every later line yields one record exactly when it has
/// as many fields as the header and its value field is a decimal literal in
/// range; every other row is dropped, so the record count equals the count
/// of well-formed rows.
pub fn load_records(data: &Vec<u8>) -> (records: Vec<Record>)
    ensures
        views(records@) == spec_load(data@),
        records@.len() == data_rows(data@).filter(row_parses(spec_header(data@))).len(),
{
    let raw = split_bytes(data, BYTE_LF);
    let lines = strip_crs(raw);
    let ghost ls = file_lines(data@);
    proof {
        assert(byte_views(lines@) == ls);
        assert(split_on(data@, BYTE_LF).len() >= 1);
        assert(ls.len() >= 1);
    }
    let header_line: &Vec<u8> = &lines[0];
    let header = split_bytes(header_line, BYTE_COMMA);
    let ghost hv = byte_views(header@);
    proof {
        assert(hv == spec_header(data@));
    }
    let nlab = name_label_exec();
    let vlab = value_label_exec();
    let ni = find_field(&header, &nlab);
    let vi = find_field(&header, &vlab);
    let mut records: Vec<Record> = Vec::new();
    if ni >= header.len() || vi >= header.len() {
        proof {
            lemma_load_rows_headerless(hv, data_rows(data@));
            assert(views(records@) =~= Seq::<RecordData>::empty());
            lemma_load_count(hv, data_rows(data@));
        }
        return records;
    }
    let hlen = header.len();
    let mut r: usize = 1;
    while r < lines.len()
        invariant
            1 <= r <= lines@.len(),
            byte_views(lines@) == ls,
            ls == file_lines(data@),
            ls.len() == lines@.len(),
            hv == spec_header(data@),
            hlen == hv.len(),
            ni == first_match(hv, name_label()),
            vi == first_match(hv, value_label()),
            ni < hv.len(),
            vi < hv.len(),
            views(records@) == load_rows(hv, ls.subrange(1, r as int)),
        decreases lines@.len() - r,
    {
        let line: &Vec<u8> = &lines[r];
        let mut fs = split_bytes(line, BYTE_COMMA);
        let ghost fv = byte_views(fs@);
        proof {
            assert(fv == line_fields(ls[r as int]));
            assert(ls.subrange(1, r + 1).drop_last() =~= ls.subrange(1, r as int));
            assert(ls.subrange(1, r + 1).last() == ls[r as int]);
        }
        if fs.len() == hlen {
            let parsed = parse_decimal(&fs[vi]);
            match parsed {
                Some(v) => {
                    let name = fs.swap_remove(ni);
                    let rec = Record { name, value: v };
                    let ghost oldrecs = records@;
                    records.push(rec);
                    proof {
                        assert(rec@ == RecordData { name: fv[ni as int], value: v as int });
                        assert(parse_row(hv, ls[r as int]) == Some(rec@));
                        assert(views(records@) =~= views(oldrecs).push(rec@));
                    }
                },
                None => {
                    proof {
                        assert(parse_row(hv, ls[r as int]) is None);
                    }
                },
            }
        } else {
            proof {
                assert(parse_row(hv, ls[r as int]) is None);
            }
        }
        r = r + 1;
    }
    proof {
        assert(ls.subrange(1, ls.len() as int) =~= ls.drop_first());
        assert(views(records@) == spec_load(data@));
        lemma_load_count(hv, data_rows(data@));
    }
    records
}

} // verus!
