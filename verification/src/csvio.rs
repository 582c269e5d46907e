//! The persisted ledger format: comma-separated fields, one row per line,
//! double-quote escaping for fields that hold a comma, quote or line break.
//! Encoding and parsing are verified against each other: parsing an encoded
//! table gives back exactly the original rows, and a persisted ledger loads
//! back to the same entries.
use vstd::prelude::*;
use crate::ledger::Entry;
use crate::ledger::EntryV;
use crate::ledger::Ledger;
use crate::ledger::has_id;
use crate::ledger::has_filename;
use crate::ledger::wf;
use crate::text::str_to_chars;
use crate::text::chars_to_string;

verus! {

// ---------- encoding ----------

pub open spec fn is_special(c: char) -> bool {
    c == ',' || c == '"' || c == '\n' || c == '\r'
}

/// The field must be quoted when encoded.
pub open spec fn needs_quoting(f: Seq<char>) -> bool {
    exists|i: int| 0 <= i < f.len() && is_special(#[trigger] f[i])
}

/// The body of a quoted field: every double quote doubled.
pub open spec fn esc(f: Seq<char>) -> Seq<char>
    decreases f.len(),
{
    if f.len() == 0 {
        Seq::empty()
    } else if f[0] == '"' {
        seq!['"', '"'] + esc(f.drop_first())
    } else {
        seq![f[0]] + esc(f.drop_first())
    }
}

/// One encoded field: quoted exactly when it holds a special character.
pub open spec fn enc_field(f: Seq<char>) -> Seq<char> {
    if needs_quoting(f) {
        seq!['"'] + esc(f) + seq!['"']
    } else {
        f
    }
}

/// One encoded row: its fields joined by commas.
pub open spec fn enc_row(r: Seq<Seq<char>>) -> Seq<char>
    decreases r.len(),
{
    if r.len() == 0 {
        Seq::empty()
    } else if r.len() == 1 {
        enc_field(r[0])
    } else {
        enc_field(r[0]) + seq![','] + enc_row(r.drop_first())
    }
}

/// An encoded table: each row terminated by a newline.
pub open spec fn enc_file(rows: Seq<Seq<Seq<char>>>) -> Seq<char>
    decreases rows.len(),
{
    if rows.len() == 0 {
        Seq::empty()
    } else {
        enc_row(rows[0]) + seq!['\n'] + enc_file(rows.drop_first())
    }
}

// ---------- parsing ----------

/// Scan a quoted field body (the opening quote already consumed): a doubled
/// quote stands for one quote; a lone quote closes the field. Returns the
/// field and the input after the closing quote.
pub open spec fn parse_quoted(s: Seq<char>, acc: Seq<char>) -> (Seq<char>, Seq<char>)
    decreases s.len(),
{
    if s.len() == 0 {
        (acc, s)
    } else if s[0] == '"' {
        if s.len() >= 2 && s[1] == '"' {
            parse_quoted(s.skip(2), acc.push('"'))
        } else {
            (acc, s.drop_first())
        }
    } else {
        parse_quoted(s.drop_first(), acc.push(s[0]))
    }
}

/// Scan an unquoted field: it ends at a comma, a newline, or the end of the
/// input. Returns the field and the input from the delimiter on.
pub open spec fn parse_raw(s: Seq<char>, acc: Seq<char>) -> (Seq<char>, Seq<char>)
    decreases s.len(),
{
    if s.len() == 0 {
        (acc, s)
    } else if s[0] == ',' || s[0] == '\n' {
        (acc, s)
    } else {
        parse_raw(s.drop_first(), acc.push(s[0]))
    }
}

/// Parse one field, quoted or not.
pub open spec fn parse_field(s: Seq<char>) -> (Seq<char>, Seq<char>) {
    if s.len() > 0 && s[0] == '"' {
        parse_quoted(s.drop_first(), Seq::empty())
    } else {
        parse_raw(s, Seq::empty())
    }
}

/// Parse one row: fields separated by commas, ended by a newline or the end
/// of the input. Returns the row and the input after its terminator.
pub open spec fn parse_row(s: Seq<char>) -> (Seq<Seq<char>>, Seq<char>)
    decreases s.len(),
{
    let fd = parse_field(s);
    let f = fd.0;
    let d = fd.1;
    if d.len() == 0 {
        (seq![f], d)
    } else if d[0] == ',' && d.len() <= s.len() {
        let rr = parse_row(d.drop_first());
        (seq![f] + rr.0, rr.1)
    } else {
        (seq![f], d.drop_first())
    }
}

/// Parse a whole table.
pub open spec fn parse_file(s: Seq<char>) -> Seq<Seq<Seq<char>>>
    decreases s.len(),
{
    if s.len() == 0 {
        Seq::empty()
    } else {
        let rr = parse_row(s);
        if rr.1.len() < s.len() {
            seq![rr.0] + parse_file(rr.1)
        } else {
            seq![rr.0]
        }
    }
}

// ---------- the round trip ----------

proof fn lemma_parse_quoted_enc(f: Seq<char>, acc: Seq<char>, rest: Seq<char>)
    requires
        rest.len() == 0 || rest[0] != '"',
    ensures
        parse_quoted(esc(f) + seq!['"'] + rest, acc) == (acc + f, rest),
    decreases f.len(),
{
    let s = esc(f) + seq!['"'] + rest;
    if f.len() == 0 {
        assert(s =~= seq!['"'] + rest);
        assert(s[0] == '"');
        assert(s.drop_first() =~= rest);
        assert(acc + f =~= acc);
        if s.len() >= 2 {
            assert(s[1] == rest[0]);
        }
    } else if f[0] == '"' {
        assert(s[0] == '"' && s[1] == '"');
        assert(s.skip(2) =~= esc(f.drop_first()) + seq!['"'] + rest);
        lemma_parse_quoted_enc(f.drop_first(), acc.push('"'), rest);
        assert(acc.push('"') + f.drop_first() =~= acc + f);
    } else {
        assert(s[0] == f[0]);
        assert(s.drop_first() =~= esc(f.drop_first()) + seq!['"'] + rest);
        lemma_parse_quoted_enc(f.drop_first(), acc.push(f[0]), rest);
        assert(acc.push(f[0]) + f.drop_first() =~= acc + f);
    }
}

proof fn lemma_parse_raw_enc(f: Seq<char>, acc: Seq<char>, rest: Seq<char>)
    requires
        !needs_quoting(f),
        rest.len() == 0 || rest[0] == ',' || rest[0] == '\n',
    ensures
        parse_raw(f + rest, acc) == (acc + f, rest),
    decreases f.len(),
{
    let s = f + rest;
    if f.len() == 0 {
        assert(s =~= rest);
        assert(acc + f =~= acc);
    } else {
        assert(!is_special(f[0]));
        assert(s[0] == f[0]);
        assert(s.drop_first() =~= f.drop_first() + rest);
        assert forall|i: int| 0 <= i < f.drop_first().len() implies !is_special(
            #[trigger] f.drop_first()[i],
        ) by {
            assert(f.drop_first()[i] == f[i + 1]);
        }
        lemma_parse_raw_enc(f.drop_first(), acc.push(f[0]), rest);
        assert(acc.push(f[0]) + f.drop_first() =~= acc + f);
    }
}

proof fn lemma_parse_field_enc(f: Seq<char>, rest: Seq<char>)
    requires
        rest.len() == 0 || rest[0] == ',' || rest[0] == '\n',
    ensures
        parse_field(enc_field(f) + rest) == (f, rest),
{
    let s = enc_field(f) + rest;
    if needs_quoting(f) {
        assert(s[0] == '"');
        assert(s.drop_first() =~= esc(f) + seq!['"'] + rest);
        lemma_parse_quoted_enc(f, Seq::empty(), rest);
        assert(Seq::<char>::empty() + f =~= f);
    } else {
        assert(s =~= f + rest);
        if f.len() > 0 {
            assert(!is_special(f[0]));
            assert(s[0] == f[0]);
        }
        lemma_parse_raw_enc(f, Seq::empty(), rest);
        assert(Seq::<char>::empty() + f =~= f);
    }
}

proof fn lemma_parse_row_enc(r: Seq<Seq<char>>, rest2: Seq<char>)
    requires
        r.len() >= 1,
    ensures
        parse_row(enc_row(r) + seq!['\n'] + rest2) == (r, rest2),
    decreases r.len(),
{
    let s = enc_row(r) + seq!['\n'] + rest2;
    if r.len() == 1 {
        let d = seq!['\n'] + rest2;
        assert(s =~= enc_field(r[0]) + d);
        lemma_parse_field_enc(r[0], d);
        assert(d.drop_first() =~= rest2);
        assert(seq![r[0]] =~= r);
    } else {
        let d = seq![','] + enc_row(r.drop_first()) + seq!['\n'] + rest2;
        assert(s =~= enc_field(r[0]) + d);
        lemma_parse_field_enc(r[0], d);
        assert(d[0] == ',');
        assert(d.len() <= s.len());
        assert(d.drop_first() =~= enc_row(r.drop_first()) + seq!['\n'] + rest2);
        lemma_parse_row_enc(r.drop_first(), rest2);
        assert(seq![r[0]] + r.drop_first() =~= r);
    }
}

/// Parsing an encoded table yields exactly the original rows, provided each
/// row has at least one field.
pub proof fn lemma_csv_round_trip(rows: Seq<Seq<Seq<char>>>)
    requires
        forall|k: int| 0 <= k < rows.len() ==> (#[trigger] rows[k]).len() >= 1,
    ensures
        parse_file(enc_file(rows)) == rows,
    decreases rows.len(),
{
    if rows.len() > 0 {
        let s = enc_file(rows);
        let tail = enc_file(rows.drop_first());
        lemma_parse_row_enc(rows[0], tail);
        assert(parse_row(s) == (rows[0], tail));
        assert(s.len() == enc_row(rows[0]).len() + 1 + tail.len());
        assert(forall|k: int|
            0 <= k < rows.drop_first().len() ==> (#[trigger] rows.drop_first()[k]).len() >= 1);
        lemma_csv_round_trip(rows.drop_first());
        assert(seq![rows[0]] + rows.drop_first() =~= rows);
    }
}

// ---------- executable encoder ----------

proof fn lemma_esc_snoc(x: Seq<char>, c: char)
    ensures
        esc(x.push(c)) == esc(x) + (if c == '"' {
            seq!['"', '"']
        } else {
            seq![c]
        }),
    decreases x.len(),
{
    let tail: Seq<char> = if c == '"' {
        seq!['"', '"']
    } else {
        seq![c]
    };
    if x.len() == 0 {
        assert(x.push(c)[0] == c);
        assert(x.push(c).drop_first() =~= Seq::<char>::empty());
        if c == '"' {
            assert(esc(x.push(c)) == seq!['"', '"'] + esc(x.push(c).drop_first()));
            assert(esc(x.push(c)) =~= esc(x) + tail);
        } else {
            assert(esc(x.push(c)) == seq![c] + esc(x.push(c).drop_first()));
            assert(esc(x.push(c)) =~= esc(x) + tail);
        }
    } else {
        assert(x.push(c)[0] == x[0]);
        assert(x.push(c).drop_first() =~= x.drop_first().push(c));
        lemma_esc_snoc(x.drop_first(), c);
        if x[0] == '"' {
            assert(esc(x.push(c)) == seq!['"', '"'] + esc(x.drop_first().push(c)));
            assert(esc(x.push(c)) == seq!['"', '"'] + (esc(x.drop_first()) + tail));
            assert(esc(x.push(c)) =~= esc(x) + tail);
        } else {
            assert(esc(x.push(c)) == seq![x[0]] + esc(x.drop_first().push(c)));
            assert(esc(x.push(c)) == seq![x[0]] + (esc(x.drop_first()) + tail));
            assert(esc(x.push(c)) =~= esc(x) + tail);
        }
    }
}

fn needs_quoting_exec(f: &Vec<char>) -> (r: bool)
    ensures
        r == needs_quoting(f@),
{
    let mut i: usize = 0;
    while i < f.len()
        invariant
            i <= f@.len(),
            forall|j: int| 0 <= j < i ==> !is_special(#[trigger] f@[j]),
        decreases f@.len() - i,
    {
        let c = f[i];
        if c == ',' || c == '"' || c == '\n' || c == '\r' {
            return true;
        }
        i = i + 1;
    }
    false
}

fn encode_field_into(out: &mut Vec<char>, f: &Vec<char>)
    ensures
        final(out)@ == old(out)@ + enc_field(f@),
{
    if !needs_quoting_exec(f) {
        crate::text::push_all(out, f);
        return ;
    }
    let ghost base = out@;
    out.push('"');
    let mut i: usize = 0;
    while i < f.len()
        invariant
            i <= f@.len(),
            needs_quoting(f@),
            out@ == base + seq!['"'] + esc(f@.take(i as int)),
        decreases f@.len() - i,
    {
        let c = f[i];
        proof {
            assert(f@.take(i + 1) =~= f@.take(i as int).push(f@[i as int]));
            lemma_esc_snoc(f@.take(i as int), f@[i as int]);
        }
        if c == '"' {
            out.push('"');
            out.push('"');
            proof {
                assert(out@ =~= base + seq!['"'] + esc(f@.take(i + 1)));
            }
        } else {
            out.push(c);
            proof {
                assert(out@ =~= base + seq!['"'] + esc(f@.take(i + 1)));
            }
        }
        i = i + 1;
    }
    out.push('"');
    proof {
        assert(f@.take(f@.len() as int) =~= f@);
        assert(out@ =~= base + enc_field(f@));
    }
}

proof fn lemma_enc_row_snoc(r: Seq<Seq<char>>)
    requires
        r.len() >= 2,
    ensures
        enc_row(r) == enc_row(r.drop_last()) + seq![','] + enc_field(r.last()),
    decreases r.len(),
{
    if r.len() == 2 {
        assert(r.drop_first() =~= seq![r[1]]);
        assert(r.drop_last() =~= seq![r[0]]);
        assert(enc_row(r) =~= enc_row(r.drop_last()) + seq![','] + enc_field(r.last()));
    } else {
        lemma_enc_row_snoc(r.drop_first());
        assert(r.drop_first().drop_last() =~= r.drop_last().drop_first());
        assert(r.drop_last()[0] == r[0]);
        assert(r.drop_first().last() == r.last());
        assert(enc_row(r) == enc_field(r[0]) + seq![','] + enc_row(r.drop_first()));
        assert(enc_row(r.drop_first()) == enc_row(r.drop_last().drop_first()) + seq![',']
            + enc_field(r.last()));
        assert(enc_row(r.drop_last()) == enc_field(r[0]) + seq![','] + enc_row(
            r.drop_last().drop_first(),
        ));
        assert(enc_row(r) =~= enc_row(r.drop_last()) + seq![','] + enc_field(r.last()));
    }
}

fn encode_row_into(out: &mut Vec<char>, row: &Vec<Vec<char>>)
    ensures
        final(out)@ == old(out)@ + enc_row(row.deep_view()),
{
    let ghost base = out@;
    let ghost rv = row.deep_view();
    let mut i: usize = 0;
    while i < row.len()
        invariant
            i <= row@.len(),
            rv == row.deep_view(),
            i == 0 ==> out@ == base,
            i >= 1 ==> out@ == base + enc_row(rv.take(i as int)),
        decreases row@.len() - i,
    {
        proof {
            assert(rv[i as int] =~= row@[i as int]@);
        }
        if i > 0 {
            out.push(',');
        }
        encode_field_into(out, &row[i]);
        proof {
            if i == 0 {
                assert(rv.take(1) =~= seq![rv[0]]);
                assert(enc_row(rv.take(1)) == enc_field(rv[0]));
            } else {
                assert(rv.take(i + 1).drop_last() =~= rv.take(i as int));
                assert(rv.take(i + 1).last() == rv[i as int]);
                lemma_enc_row_snoc(rv.take(i + 1));
                assert(out@ =~= base + enc_row(rv.take(i + 1)));
            }
        }
        i = i + 1;
    }
    proof {
        if row@.len() == 0 {
            assert(rv.take(0) =~= rv);
            assert(out@ =~= base + enc_row(rv));
        } else {
            assert(rv.take(rv.len() as int) =~= rv);
        }
    }
}

proof fn lemma_enc_file_snoc(rows: Seq<Seq<Seq<char>>>)
    requires
        rows.len() >= 1,
    ensures
        enc_file(rows) == enc_file(rows.drop_last()) + enc_row(rows.last()) + seq!['\n'],
    decreases rows.len(),
{
    if rows.len() == 1 {
        assert(rows.drop_first() =~= Seq::<Seq<Seq<char>>>::empty());
        assert(rows.drop_last() =~= Seq::<Seq<Seq<char>>>::empty());
        assert(enc_file(rows) =~= enc_file(rows.drop_last()) + enc_row(rows.last()) + seq!['\n']);
    } else {
        lemma_enc_file_snoc(rows.drop_first());
        assert(rows.drop_first().drop_last() =~= rows.drop_last().drop_first());
        assert(rows.drop_last()[0] == rows[0]);
        assert(rows.drop_first().last() == rows.last());
        assert(enc_file(rows) =~= enc_file(rows.drop_last()) + enc_row(rows.last()) + seq!['\n']);
    }
}

/// Encode a table of rows into the persisted text form.
pub fn encode_csv(rows: &Vec<Vec<Vec<char>>>) -> (r: Vec<char>)
    ensures
        r@ == enc_file(rows.deep_view()),
{
    let ghost rv = rows.deep_view();
    let mut out: Vec<char> = Vec::new();
    let mut i: usize = 0;
    while i < rows.len()
        invariant
            i <= rows@.len(),
            rv == rows.deep_view(),
            out@ == enc_file(rv.take(i as int)),
        decreases rows@.len() - i,
    {
        proof {
            assert(rv[i as int] =~~= rows@[i as int].deep_view());
        }
        encode_row_into(&mut out, &rows[i]);
        out.push('\n');
        proof {
            assert(rv.take(i + 1).drop_last() =~= rv.take(i as int));
            assert(rv.take(i + 1).last() == rv[i as int]);
            lemma_enc_file_snoc(rv.take(i + 1));
            assert(out@ =~= enc_file(rv.take(i + 1)));
        }
        i = i + 1;
    }
    proof {
        assert(rv.take(rv.len() as int) =~= rv);
    }
    out
}

// ---------- executable parser ----------

fn parse_field_at(v: &Vec<char>, start: usize) -> (r: (Vec<char>, usize))
    requires
        start <= v@.len(),
    ensures
        start <= r.1 <= v@.len(),
        parse_field(v@.skip(start as int)) == (r.0@, v@.skip(r.1 as int)),
{
    let mut acc: Vec<char> = Vec::new();
    if start < v.len() && v[start] == '"' {
        let mut pos: usize = start + 1;
        proof {
            assert(v@.skip(start as int)[0] == v@[start as int]);
            assert(v@.skip(start as int).drop_first() =~= v@.skip(start + 1));
        }
        loop
            invariant
                start + 1 <= pos <= v@.len(),
                parse_field(v@.skip(start as int)) == parse_quoted(v@.skip(pos as int), acc@),
            decreases v@.len() - pos,
        {
            proof {
                if pos < v@.len() {
                    assert(v@.skip(pos as int)[0] == v@[pos as int]);
                    assert(v@.skip(pos as int).drop_first() =~= v@.skip(pos + 1));
                    if pos + 1 < v@.len() {
                        assert(v@.skip(pos as int)[1] == v@[pos + 1]);
                        assert(v@.skip(pos as int).skip(2) =~= v@.skip(pos + 2));
                    }
                }
            }
            if pos >= v.len() {
                return (acc, pos);
            }
            let c = v[pos];
            if c == '"' {
                if pos + 1 < v.len() && v[pos + 1] == '"' {
                    acc.push('"');
                    pos = pos + 2;
                } else {
                    return (acc, pos + 1);
                }
            } else {
                acc.push(c);
                pos = pos + 1;
            }
        }
    } else {
        let mut pos: usize = start;
        loop
            invariant
                start <= pos <= v@.len(),
                parse_field(v@.skip(start as int)) == parse_raw(v@.skip(pos as int), acc@),
            decreases v@.len() - pos,
        {
            proof {
                if pos < v@.len() {
                    assert(v@.skip(pos as int)[0] == v@[pos as int]);
                    assert(v@.skip(pos as int).drop_first() =~= v@.skip(pos + 1));
                }
            }
            if pos >= v.len() {
                return (acc, pos);
            }
            let c = v[pos];
            if c == ',' || c == '\n' {
                return (acc, pos);
            }
            acc.push(c);
            pos = pos + 1;
        }
    }
}

fn parse_row_at(v: &Vec<char>, start: usize) -> (r: (Vec<Vec<char>>, usize))
    requires
        start <= v@.len(),
    ensures
        start <= r.1 <= v@.len(),
        start < v@.len() ==> r.1 > start,
        parse_row(v@.skip(start as int)) == (r.0.deep_view(), v@.skip(r.1 as int)),
{
    let mut fields: Vec<Vec<char>> = Vec::new();
    let mut pos: usize = start;
    loop
        invariant
            start <= pos <= v@.len(),
            pos > start || pos == start,
            fields.deep_view().len() > 0 ==> pos > start,
            ({
                let full = parse_row(v@.skip(start as int));
                let cur = parse_row(v@.skip(pos as int));
                full.0 == fields.deep_view() + cur.0 && full.1 == cur.1
            }),
        decreases v@.len() - pos,
    {
        let fr = parse_field_at(v, pos);
        let f = fr.0;
        let next = fr.1;
        let ghost fv = f@;
        let ghost fields0 = fields.deep_view();
        fields.push(f);
        proof {
            assert(fields.deep_view() =~~= fields0.push(fv));
        }
        if next >= v.len() {
            proof {
                let cur = parse_row(v@.skip(pos as int));
                assert(v@.skip(next as int) =~= Seq::<char>::empty());
                assert(cur.0 =~= seq![fv]);
                assert(fields0.push(fv) =~= fields0 + seq![fv]);
            }
            return (fields, next);
        }
        let d = v[next];
        proof {
            assert(v@.skip(next as int)[0] == v@[next as int]);
            assert(v@.skip(next as int).drop_first() =~= v@.skip(next + 1));
            assert(v@.skip(next as int).len() <= v@.skip(pos as int).len());
        }
        if d == ',' {
            proof {
                let cur = parse_row(v@.skip(pos as int));
                let sub = parse_row(v@.skip(next + 1));
                assert(cur.0 =~= seq![fv] + sub.0);
                assert(fields0 + cur.0 =~= fields0.push(fv) + sub.0);
            }
            pos = next + 1;
        } else {
            proof {
                let cur = parse_row(v@.skip(pos as int));
                assert(cur.0 =~= seq![fv]);
                assert(fields0.push(fv) =~= fields0 + seq![fv]);
            }
            return (fields, next + 1);
        }
    }
}

/// Parse the persisted text form into its rows.
pub fn parse_csv(v: &Vec<char>) -> (r: Vec<Vec<Vec<char>>>)
    ensures
        r.deep_view() == parse_file(v@),
{
    let mut rows: Vec<Vec<Vec<char>>> = Vec::new();
    let mut pos: usize = 0;
    proof {
        assert(v@.skip(0) =~= v@);
        assert(rows.deep_view() =~= Seq::<Seq<Seq<char>>>::empty());
        assert(Seq::<Seq<Seq<char>>>::empty() + parse_file(v@) =~= parse_file(v@));
    }
    while pos < v.len()
        invariant
            pos <= v@.len(),
            parse_file(v@) == rows.deep_view() + parse_file(v@.skip(pos as int)),
        decreases v@.len() - pos,
    {
        let rn = parse_row_at(v, pos);
        let ghost rv = rn.0.deep_view();
        let ghost rows0 = rows.deep_view();
        let next = rn.1;
        rows.push(rn.0);
        proof {
            let s = v@.skip(pos as int);
            assert(s.len() == v@.len() - pos);
            assert(v@.skip(next as int).len() < s.len());
            assert(parse_file(s) =~= seq![rv] + parse_file(v@.skip(next as int)));
            assert(rows.deep_view() =~~= rows0.push(rv));
            assert(rows0.push(rv) + parse_file(v@.skip(next as int)) =~= rows0 + (seq![rv]
                + parse_file(v@.skip(next as int))));
        }
        pos = next;
    }
    proof {
        assert(v@.skip(pos as int) =~= Seq::<char>::empty());
        assert(rows.deep_view() + parse_file(Seq::<char>::empty()) =~= rows.deep_view());
    }
    rows
}

// ---------- the persisted ledger ----------

pub open spec fn bool_text(b: bool) -> Seq<char> {
    if b {
        "true"@
    } else {
        "false"@
    }
}

/// The persisted row of one entry.
pub open spec fn row_of_entry(e: EntryV) -> Seq<Seq<char>> {
    seq![
        e.filename,
        e.species,
        e.source_url,
        e.id,
        e.common_name,
        e.scientific_name,
        bool_text(e.downloaded),
    ]
}

/// The fixed header row.
pub open spec fn header_row() -> Seq<Seq<char>> {
    seq![
        "filename"@,
        "species"@,
        "original_url"@,
        "id"@,
        "common_name"@,
        "scientific_name"@,
        "is_downloaded"@,
    ]
}

/// The full persisted table of a ledger: the header, then one row per entry.
pub open spec fn rows_of(l: Seq<EntryV>) -> Seq<Seq<Seq<char>>> {
    seq![header_row()] + l.map_values(|e: EntryV| row_of_entry(e))
}

/// The persisted text of a ledger.
pub open spec fn spec_persist(l: Seq<EntryV>) -> Seq<char> {
    enc_file(rows_of(l))
}

/// The entry read back from one persisted row (at least 6 fields; a missing
/// seventh field means not downloaded).
pub open spec fn entry_of_row(row: Seq<Seq<char>>) -> EntryV {
    EntryV {
        id: row[3],
        source_url: row[2],
        common_name: row[4],
        scientific_name: row[5],
        species: row[1],
        filename: row[0],
        downloaded: row.len() >= 7 && row[6] == "true"@,
    }
}

/// Load persisted rows in order: a row with fewer than 6 fields, or one that
/// would repeat an id or filename already loaded, is skipped.
pub open spec fn load_rows(rows: Seq<Seq<Seq<char>>>) -> Seq<EntryV>
    decreases rows.len(),
{
    if rows.len() == 0 {
        Seq::empty()
    } else {
        let prev = load_rows(rows.drop_last());
        let row = rows.last();
        if row.len() >= 6 && !has_id(prev, row[3]) && !has_filename(prev, row[0]) {
            prev.push(entry_of_row(row))
        } else {
            prev
        }
    }
}

/// The ledger read back from persisted text: the first row is the header,
/// every further row one entry.
pub open spec fn spec_load(t: Seq<char>) -> Seq<EntryV> {
    let rows = parse_file(t);
    if rows.len() == 0 {
        Seq::empty()
    } else {
        load_rows(rows.drop_first())
    }
}

/// Loading always yields a well-formed ledger.
proof fn lemma_load_rows_wf(rows: Seq<Seq<Seq<char>>>)
    ensures
        wf(load_rows(rows)),
    decreases rows.len(),
{
    if rows.len() > 0 {
        lemma_load_rows_wf(rows.drop_last());
        let prev = load_rows(rows.drop_last());
        let row = rows.last();
        if row.len() >= 6 && !has_id(prev, row[3]) && !has_filename(prev, row[0]) {
            let r = prev.push(entry_of_row(row));
            assert forall|i: int| 0 <= i < prev.len() implies prev[i].id != entry_of_row(row).id
                by {
                if prev[i].id == entry_of_row(row).id {
                    assert(has_id(prev, row[3]));
                }
            }
            assert forall|i: int|
                0 <= i < prev.len() implies prev[i].filename != entry_of_row(row).filename by {
                if prev[i].filename == entry_of_row(row).filename {
                    assert(has_filename(prev, row[0]));
                }
            }
        }
    }
}

/// Write the whole ledger, header first, in the persisted text form. Safe to
/// call repeatedly: the output is a function of the entries alone.
pub fn ledger_to_csv(led: &Ledger) -> (r: String)
    ensures
        r@ == spec_persist(led@),
{
    let ghost l = led@;
    let mut rows: Vec<Vec<Vec<char>>> = Vec::new();
    let mut hrow: Vec<Vec<char>> = Vec::new();
    hrow.push(str_to_chars("filename"));
    hrow.push(str_to_chars("species"));
    hrow.push(str_to_chars("original_url"));
    hrow.push(str_to_chars("id"));
    hrow.push(str_to_chars("common_name"));
    hrow.push(str_to_chars("scientific_name"));
    hrow.push(str_to_chars("is_downloaded"));
    proof {
        assert(hrow.deep_view() =~~= header_row());
    }
    rows.push(hrow);
    proof {
        assert(l.take(0).map_values(|e: EntryV| row_of_entry(e)) =~= Seq::<Seq<Seq<char>>>::empty());
        assert(rows.deep_view() =~~= seq![header_row()] + l.take(0).map_values(
            |e: EntryV| row_of_entry(e),
        ));
    }
    let mut i: usize = 0;
    while i < led.entries.len()
        invariant
            i <= led.entries@.len(),
            l == led@,
            rows.deep_view() == seq![header_row()] + l.take(i as int).map_values(
                |e: EntryV| row_of_entry(e),
            ),
        decreases led.entries@.len() - i,
    {
        let e = &led.entries[i];
        let mut row: Vec<Vec<char>> = Vec::new();
        row.push(str_to_chars(e.filename.as_str()));
        row.push(str_to_chars(e.species.as_str()));
        row.push(str_to_chars(e.source_url.as_str()));
        row.push(str_to_chars(e.id.as_str()));
        row.push(str_to_chars(e.common_name.as_str()));
        row.push(str_to_chars(e.scientific_name.as_str()));
        if e.downloaded {
            row.push(str_to_chars("true"));
        } else {
            row.push(str_to_chars("false"));
        }
        proof {
            assert(l[i as int] == e@);
            assert(row.deep_view() =~~= row_of_entry(l[i as int]));
        }
        let ghost rows0 = rows.deep_view();
        let ghost rv = row.deep_view();
        rows.push(row);
        proof {
            assert(rows.deep_view() =~~= rows0.push(rv));
            assert(l.take(i + 1).map_values(|e: EntryV| row_of_entry(e)) =~= l.take(
                i as int,
            ).map_values(|e: EntryV| row_of_entry(e)).push(row_of_entry(l[i as int])));
            assert(rows.deep_view() =~~= seq![header_row()] + l.take(i + 1).map_values(
                |e: EntryV| row_of_entry(e),
            ));
        }
        i = i + 1;
    }
    proof {
        assert(l.take(l.len() as int) =~= l);
        assert(rows.deep_view() =~~= rows_of(l));
    }
    let out = encode_csv(&rows);
    chars_to_string(&out)
}

/// Read a ledger back from persisted text. Malformed rows (fewer than 6
/// fields) and rows that would repeat an id or filename are skipped, never
/// an error; the result is always well-formed.
pub fn ledger_from_csv(text: &str) -> (r: Ledger)
    ensures
        r@ == spec_load(text@),
        wf(r@),
{
    let chars = str_to_chars(text);
    let rows = parse_csv(&chars);
    let mut led = Ledger::new();
    if rows.len() == 0 {
        proof {
            lemma_load_rows_wf(Seq::empty());
        }
        return led;
    }
    let ghost tail = parse_file(text@).drop_first();
    let mut k: usize = 1;
    while k < rows.len()
        invariant
            1 <= k <= rows@.len(),
            rows.deep_view() == parse_file(text@),
            rows@.len() >= 1,
            tail == parse_file(text@).drop_first(),
            led@ == load_rows(tail.take(k - 1)),
        decreases rows@.len() - k,
    {
        let ghost lcur = led@;
        let row = &rows[k];
        proof {
            assert(tail.take(k as int).drop_last() =~= tail.take(k - 1));
            assert(tail.take(k as int).last() == tail[k - 1]);
            assert(tail[k - 1] == rows.deep_view()[k as int]);
            assert(rows.deep_view()[k as int] =~~= row.deep_view());
            assert forall|t: int| 0 <= t < row@.len() implies #[trigger] row.deep_view()[t]
                == row@[t]@ by {
                assert(row.deep_view()[t] =~= row@[t]@);
            }
        }
        if row.len() >= 6 {
            let filename = chars_to_string(&row[0]);
            let id = chars_to_string(&row[3]);
            if !crate::ledger::contains_id(&led.entries, &id) && !crate::ledger::contains_filename(
                &led.entries,
                &filename,
            ) {
                let downloaded: bool = if row.len() >= 7 {
                    let flag = chars_to_string(&row[6]);
                    flag.eq(&"true".to_owned())
                } else {
                    false
                };
                let e = Entry {
                    id,
                    source_url: chars_to_string(&row[2]),
                    common_name: chars_to_string(&row[4]),
                    scientific_name: chars_to_string(&row[5]),
                    species: chars_to_string(&row[1]),
                    filename,
                    downloaded,
                };
                proof {
                    assert(row.deep_view().len() == row@.len());
                    assert(e@ == entry_of_row(row.deep_view()));
                }
                led.entries.push(e);
                proof {
                    assert(led@ =~= lcur.push(entry_of_row(row.deep_view())));
                }
            }
        }
        proof {
            assert(led@ == load_rows(tail.take(k as int)));
        }
        k = k + 1;
    }
    proof {
        assert(tail.take(tail.len() as int) =~= tail);
        assert(tail.take(k - 1) =~= tail);
        lemma_load_rows_wf(tail);
    }
    led
}

// ---------- the persist/load round trip ----------

proof fn lemma_load_rows_map(l: Seq<EntryV>)
    requires
        wf(l),
    ensures
        load_rows(l.map_values(|e: EntryV| row_of_entry(e))) == l,
    decreases l.len(),
{
    let m = l.map_values(|e: EntryV| row_of_entry(e));
    if l.len() == 0 {
        assert(m =~= Seq::<Seq<Seq<char>>>::empty());
        assert(load_rows(m) =~= l);
    } else {
        assert(m.drop_last() =~= l.drop_last().map_values(|e: EntryV| row_of_entry(e)));
        lemma_load_rows_map(l.drop_last());
        let prev = l.drop_last();
        let e = l.last();
        let row = m.last();
        assert(row == row_of_entry(e));
        assert(row.len() == 7);
        assert forall|i: int| 0 <= i < prev.len() implies prev[i].id != e.id by {
            assert(l[i] == prev[i]);
            assert(l[l.len() - 1] == e);
        }
        assert forall|i: int| 0 <= i < prev.len() implies prev[i].filename != e.filename by {
            assert(l[i] == prev[i]);
            assert(l[l.len() - 1] == e);
        }
        assert(!has_id(prev, row[3]));
        assert(!has_filename(prev, row[0]));
        reveal_strlit("true");
        reveal_strlit("false");
        assert(bool_text(false) != "true"@) by {
            assert("false"@.len() == 5);
            assert("true"@.len() == 4);
        }
        assert(entry_of_row(row) == e);
        assert(prev.push(e) =~= l);
    }
}

/// Round trip: persisting a ledger and loading the result reproduces the
/// same entries — the same ids, filenames and download flags, in order.
pub proof fn lemma_persist_load_round_trip(l: Seq<EntryV>)
    requires
        wf(l),
    ensures
        spec_load(spec_persist(l)) == l,
{
    let rows = rows_of(l);
    assert forall|k: int| 0 <= k < rows.len() implies (#[trigger] rows[k]).len() >= 1 by {
        if k >= 1 {
            assert(rows[k] == l.map_values(|e: EntryV| row_of_entry(e))[k - 1]);
        }
    }
    lemma_csv_round_trip(rows);
    assert(rows.drop_first() =~= l.map_values(|e: EntryV| row_of_entry(e)));
    lemma_load_rows_map(l);
}

} // verus!
