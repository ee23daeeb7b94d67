use crate::collect::{records_view, ExportRecord};
use vstd::prelude::*;
use vstd::utf8::encode_utf8;

verus! {

/// A byte that forces a field to be quoted: `,`, `"`, carriage return or line feed.
pub open spec fn is_special(b: u8) -> bool {
    b == 44 || b == 34 || b == 13 || b == 10
}

pub open spec fn needs_quotes(f: Seq<u8>) -> bool {
    exists|i: int| 0 <= i < f.len() && is_special(#[trigger] f[i])
}

/// The field with each `"` written twice.
pub open spec fn doubled_quotes(f: Seq<u8>) -> Seq<u8>
    decreases f.len(),
{
    if f.len() == 0 {
        Seq::empty()
    } else {
        (if f[0] == 34 {
            seq![34u8, 34u8]
        } else {
            seq![f[0]]
        }) + doubled_quotes(f.drop_first())
    }
}

/// A field as it stands in a row: as it is, or between quotes where it
/// holds a special byte.
pub open spec fn csv_field(f: Seq<u8>) -> Seq<u8> {
    if needs_quotes(f) {
        seq![34u8] + doubled_quotes(f) + seq![34u8]
    } else {
        f
    }
}

/// A row of two fields, ended by a line feed.
pub open spec fn csv_row(a: Seq<u8>, b: Seq<u8>) -> Seq<u8> {
    csv_field(a) + seq![44u8] + csv_field(b) + seq![10u8]
}

/// The decimal digits of a number, most significant first, without leading zeros.
pub open spec fn decimal_digits(n: nat) -> Seq<u8>
    decreases n,
{
    if n < 10 {
        seq![(48 + n) as u8]
    } else {
        decimal_digits(n / 10).push((48 + n % 10) as u8)
    }
}

/// The row of one record.
pub open spec fn record_row(r: (Seq<char>, usize)) -> Seq<u8> {
    csv_row(encode_utf8(r.0), decimal_digits(r.1 as nat))
}

/// The rows of the records, in their order.
pub open spec fn rows_bytes(s: Seq<(Seq<char>, usize)>) -> Seq<u8>
    decreases s.len(),
{
    if s.len() == 0 {
        Seq::empty()
    } else {
        rows_bytes(s.drop_last()) + record_row(s.last())
    }
}

/// The header row, naming the two columns.
pub open spec fn header_row() -> Seq<u8> {
    csv_row(encode_utf8("path"@), encode_utf8("views"@))
}

/// The whole table: the header row, then one row per record.
pub open spec fn table_bytes(s: Seq<(Seq<char>, usize)>) -> Seq<u8> {
    header_row() + rows_bytes(s)
}

/// Relies on csv::Writer::write_record (then Writer::into_inner) with the default settings, writing into
/// memory: each field is written as it is, or between quotes with its quotes
/// doubled where it holds a delimiter, a quote or a line break; fields are
/// separated by `,` and the record ends with a line feed. Writing one record
/// into a `Vec<u8>` does not fail.
#[verifier::external_body]
fn write_csv_row(first: &[u8], second: &[u8]) -> (r: Option<Vec<u8>>)
    ensures
        r is Some,
        r matches Some(b) ==> b@ == csv_row(first@, second@),
{
    let mut writer = csv::Writer::from_writer(Vec::new());
    writer.write_record([first, second]).ok()?;
    writer.into_inner().ok()
}

/// The decimal form of a count.
pub fn format_views(n: usize) -> (r: Vec<u8>)
    ensures
        r@ == decimal_digits(n as nat),
{
    let mut out: Vec<u8> = Vec::new();
    out.push((48 + n % 10) as u8);
    let mut m: usize = n / 10;
    assert(n < 10 ==> out@ == decimal_digits(n as nat));
    while m > 0
        invariant
            m == 0 ==> out@ == decimal_digits(n as nat),
            m > 0 ==> decimal_digits(n as nat) == decimal_digits(m as nat) + out@,
        decreases m,
    {
        let ghost before = out@;
        out.insert(0, (48 + m % 10) as u8);
        if m >= 10 {
            assert(decimal_digits(m as nat) == decimal_digits((m / 10) as nat).push(
                (48 + m % 10) as u8,
            ));
            assert(decimal_digits((m / 10) as nat) + out@ =~= decimal_digits((m / 10) as nat).push(
                (48 + m % 10) as u8,
            ) + before);
        } else {
            assert(decimal_digits(m as nat) =~= seq![(48 + m % 10) as u8]);
            assert(out@ =~= seq![(48 + m % 10) as u8] + before);
        }
        m = m / 10;
    }
    out
}

/// The bytes of the exported table: the header row `path,views`, then one row
/// per record, in the order given.
pub fn render_table(records: &Vec<ExportRecord>) -> (r: Vec<u8>)
    ensures
        r@ == table_bytes(records_view(records@)),
{
    let mut out = write_csv_row("path".as_bytes(), "views".as_bytes()).unwrap();
    let mut i: usize = 0;
    while i < records.len()
        invariant
            i <= records.len(),
            out@ == header_row() + rows_bytes(records_view(records@.take(i as int))),
        decreases records.len() - i,
    {
        let digits = format_views(records[i].views);
        let mut row = write_csv_row(records[i].path.as_str().as_bytes(), digits.as_slice()).unwrap();
        proof {
            let s = records_view(records@.take(i + 1));
            assert(s.drop_last() =~= records_view(records@.take(i as int)));
            assert(s.last() == records@[i as int]@);
        }
        out.append(&mut row);
        assert(out@ =~= header_row() + rows_bytes(records_view(records@.take(i + 1))));
        i = i + 1;
    }
    assert(records@.take(records.len() as int) =~= records@);
    out
}

} // verus!
