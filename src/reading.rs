use crate::export::{
    csv_field, csv_row, decimal_digits, doubled_quotes, header_row, is_special, needs_quotes,
    record_row, rows_bytes, table_bytes,
};
use vstd::prelude::*;
use vstd::utf8::encode_utf8;

verus! {

/// The number that a string of decimal digits spells.
pub open spec fn parse_decimal(d: Seq<u8>) -> nat
    decreases d.len(),
{
    if d.len() == 0 {
        0
    } else {
        parse_decimal(d.drop_last()) * 10 + (d.last() - 48) as nat
    }
}

/// A quoted field's content up to its closing quote, where `""` stands for
/// one `"`; and what follows the closing quote.
pub open spec fn read_quoted(s: Seq<u8>) -> (Seq<u8>, Seq<u8>)
    decreases s.len(),
{
    if s.len() == 0 {
        (Seq::empty(), Seq::empty())
    } else if s[0] == 34 {
        if s.len() >= 2 && s[1] == 34 {
            let (c, r) = read_quoted(s.skip(2));
            (seq![34u8] + c, r)
        } else {
            (Seq::empty(), s.drop_first())
        }
    } else {
        let (c, r) = read_quoted(s.drop_first());
        (seq![s[0]] + c, r)
    }
}

/// Position of the first comma or line feed in `s`, or its length.
pub open spec fn field_end(s: Seq<u8>) -> int
    decreases s.len(),
{
    if s.len() == 0 {
        0
    } else if s[0] == 44 || s[0] == 10 {
        0
    } else {
        1 + field_end(s.drop_first())
    }
}

/// One field at the start of `s`, quoted or not, and what follows it.
pub open spec fn read_field(s: Seq<u8>) -> (Seq<u8>, Seq<u8>) {
    if s.len() > 0 && s[0] == 34 {
        read_quoted(s.drop_first())
    } else {
        let e = field_end(s);
        (s.take(e), s.skip(e))
    }
}

/// One row at the start of `s`, read as a path and a count, and what follows
/// its line feed.
pub open spec fn read_row(s: Seq<u8>) -> ((Seq<u8>, nat), Seq<u8>) {
    let (path, r1) = read_field(s);
    let (digits, r2) = read_field(r1.drop_first());
    ((path, parse_decimal(digits)), r2.drop_first())
}

/// Every row of `s`, in order.
pub open spec fn read_rows(s: Seq<u8>) -> Seq<(Seq<u8>, nat)>
    decreases s.len(),
{
    if s.len() == 0 {
        Seq::empty()
    } else {
        let (row, rest) = read_row(s);
        if rest.len() < s.len() {
            seq![row] + read_rows(rest)
        } else {
            seq![row]
        }
    }
}

/// The rows of a table that follow its header row.
pub open spec fn read_table(s: Seq<u8>) -> Seq<(Seq<u8>, nat)> {
    read_rows(read_row(s).1)
}

/// What a reader of the table recovers of each record: its path's bytes and its count.
pub open spec fn read_back(s: Seq<(Seq<char>, usize)>) -> Seq<(Seq<u8>, nat)> {
    s.map_values(|r: (Seq<char>, usize)| (encode_utf8(r.0), r.1 as nat))
}

proof fn lemma_digits(n: nat)
    ensures
        parse_decimal(decimal_digits(n)) == n,
        decimal_digits(n).len() > 0,
        forall|i: int|
            0 <= i < decimal_digits(n).len() ==> 48 <= #[trigger] decimal_digits(n)[i] <= 57,
    decreases n,
{
    if n < 10 {
        assert(decimal_digits(n).drop_last() =~= Seq::<u8>::empty());
        assert(parse_decimal(Seq::<u8>::empty()) == 0);
        assert(decimal_digits(n).last() == (48 + n) as u8);
    } else {
        lemma_digits(n / 10);
        assert(decimal_digits(n).drop_last() =~= decimal_digits(n / 10));
        assert(decimal_digits(n).last() == (48 + n % 10) as u8);
        assert((decimal_digits(n).last() - 48) as nat == n % 10);
        assert(parse_decimal(decimal_digits(n)) == (n / 10) * 10 + n % 10);
    }
}

proof fn lemma_rows_front(s: Seq<(Seq<char>, usize)>)
    requires
        s.len() > 0,
    ensures
        rows_bytes(s) == record_row(s[0]) + rows_bytes(s.drop_first()),
    decreases s.len(),
{
    if s.len() == 1 {
        assert(s.drop_last() =~= Seq::<(Seq<char>, usize)>::empty());
        assert(s.drop_first() =~= Seq::<(Seq<char>, usize)>::empty());
        assert(rows_bytes(s.drop_last()) =~= Seq::<u8>::empty());
        assert(s.last() == s[0]);
        assert(rows_bytes(s) =~= record_row(s[0]));
        assert(rows_bytes(s.drop_first()) =~= Seq::<u8>::empty());
        assert(record_row(s[0]) + Seq::<u8>::empty() =~= record_row(s[0]));
    } else {
        lemma_rows_front(s.drop_last());
        assert(s.drop_last().drop_first() =~= s.drop_first().drop_last());
        assert(s.drop_first().last() == s.last());
        assert(s.drop_last()[0] == s[0]);
        assert(rows_bytes(s) =~= record_row(s[0]) + rows_bytes(s.drop_first()));
    }
}

proof fn lemma_plain_field(f: Seq<u8>)
    requires
        !needs_quotes(f),
    ensures
        csv_field(f) == f,
        forall|i: int| 0 <= i < f.len() ==> !is_special(#[trigger] f[i]),
{
    assert forall|i: int| 0 <= i < f.len() implies !is_special(#[trigger] f[i]) by {
        if is_special(f[i]) {
            assert(needs_quotes(f));
        }
    }
}

proof fn lemma_read_quoted(f: Seq<u8>, tail: Seq<u8>)
    requires
        tail.len() > 0,
        tail[0] != 34u8,
    ensures
        read_quoted(doubled_quotes(f) + seq![34u8] + tail) == (f, tail),
    decreases f.len(),
{
    let s = doubled_quotes(f) + seq![34u8] + tail;
    if f.len() == 0 {
        assert(doubled_quotes(f) =~= Seq::<u8>::empty());
        assert(s =~= seq![34u8] + tail);
        assert(s.drop_first() =~= tail);
        assert(s[1] == tail[0]);
    } else {
        lemma_read_quoted(f.drop_first(), tail);
        let rest = doubled_quotes(f.drop_first()) + seq![34u8] + tail;
        if f[0] == 34 {
            assert(s =~= seq![34u8, 34u8] + rest);
            assert(s.skip(2) =~= rest);
        } else {
            assert(s =~= seq![f[0]] + rest);
            assert(s.drop_first() =~= rest);
        }
        assert(f =~= seq![f[0]] + f.drop_first());
    }
}

proof fn lemma_field_end(f: Seq<u8>, tail: Seq<u8>)
    requires
        forall|i: int| 0 <= i < f.len() ==> !is_special(#[trigger] f[i]),
        tail.len() > 0,
        tail[0] == 44 || tail[0] == 10,
    ensures
        field_end(f + tail) == f.len(),
    decreases f.len(),
{
    let s = f + tail;
    if f.len() > 0 {
        assert(s.drop_first() =~= f.drop_first() + tail);
        assert(forall|i: int| 0 <= i < f.drop_first().len() ==> f.drop_first()[i] == f[i + 1]);
        lemma_field_end(f.drop_first(), tail);
    } else {
        assert(s =~= tail);
    }
}

proof fn lemma_read_field(f: Seq<u8>, tail: Seq<u8>)
    requires
        tail.len() > 0,
        tail[0] == 44 || tail[0] == 10,
    ensures
        read_field(csv_field(f) + tail) == (f, tail),
{
    let s = csv_field(f) + tail;
    if needs_quotes(f) {
        assert(s =~= seq![34u8] + (doubled_quotes(f) + seq![34u8] + tail));
        assert(s.drop_first() =~= doubled_quotes(f) + seq![34u8] + tail);
        lemma_read_quoted(f, tail);
    } else {
        lemma_plain_field(f);
        lemma_field_end(f, tail);
        if f.len() > 0 {
            assert(s[0] == f[0]);
            assert(!is_special(f[0]));
        }
        assert(s.take(f.len() as int) =~= f);
        assert(s.skip(f.len() as int) =~= tail);
    }
}

proof fn lemma_read_row(a: Seq<u8>, b: Seq<u8>, rest: Seq<u8>)
    ensures
        read_row(csv_row(a, b) + rest) == ((a, parse_decimal(b)), rest),
{
    let s = csv_row(a, b) + rest;
    let t1 = seq![44u8] + csv_field(b) + seq![10u8] + rest;
    let t2 = seq![10u8] + rest;
    assert(s =~= csv_field(a) + t1);
    lemma_read_field(a, t1);
    assert(t1.drop_first() =~= csv_field(b) + t2);
    lemma_read_field(b, t2);
    assert(t2.drop_first() =~= rest);
}

proof fn lemma_rows_round_trip(s: Seq<(Seq<char>, usize)>)
    ensures
        read_rows(rows_bytes(s)) == read_back(s),
    decreases s.len(),
{
    if s.len() == 0 {
        assert(read_back(s) =~= Seq::<(Seq<u8>, nat)>::empty());
    } else {
        lemma_rows_front(s);
        let rest = rows_bytes(s.drop_first());
        let p = encode_utf8(s[0].0);
        let d = decimal_digits(s[0].1 as nat);
        lemma_digits(s[0].1 as nat);
        lemma_read_row(p, d, rest);
        assert(rows_bytes(s) == csv_row(p, d) + rest);
        assert(csv_row(p, d).len() > 0);
        lemma_rows_round_trip(s.drop_first());
        assert(read_back(s) =~= seq![(p, s[0].1 as nat)] + read_back(s.drop_first()));
    }
}

/// Reading the table back gives the records that were written, in their
/// order, each path as its bytes and each count as the same number.
pub proof fn lemma_table_round_trip(s: Seq<(Seq<char>, usize)>)
    ensures
        read_table(table_bytes(s)) == read_back(s),
{
    lemma_read_row(encode_utf8("path"@), encode_utf8("views"@), rows_bytes(s));
    assert(table_bytes(s) == header_row() + rows_bytes(s));
    lemma_rows_round_trip(s);
}

} // verus!
