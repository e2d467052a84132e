use vstd::prelude::*;
use vstd::string::*;
use crate::errors::StoreError;
use crate::store::FlatEntry;
use crate::merge::{rec_view, recs_view};
use crate::strutil::push_char;

verus! {

// ---------------------------------------------------------------------
// Emission.  Every field is quoted; a quote inside a field is doubled;
// records end with a line feed.  This is RFC-4180-style quoting, with
// no header row.
// ---------------------------------------------------------------------
pub open spec fn csv_esc_char(c: char) -> Seq<char> {
    if c == '"' {
        seq!['"', '"']
    } else {
        seq![c]
    }
}

pub open spec fn csv_escape(s: Seq<char>) -> Seq<char>
    decreases s.len(),
{
    if s.len() == 0 {
        Seq::empty()
    } else {
        csv_esc_char(s[0]) + csv_escape(s.drop_first())
    }
}

pub open spec fn csv_field(s: Seq<char>) -> Seq<char> {
    seq!['"'] + csv_escape(s) + seq!['"']
}

pub open spec fn csv_record(r: (Seq<char>, Seq<char>, Seq<char>)) -> Seq<char> {
    csv_field(r.0) + seq![','] + csv_field(r.1) + seq![','] + csv_field(r.2) + seq!['\n']
}

pub open spec fn csv_doc(rs: Seq<(Seq<char>, Seq<char>, Seq<char>)>) -> Seq<char>
    decreases rs.len(),
{
    if rs.len() == 0 {
        Seq::empty()
    } else {
        csv_record(rs[0]) + csv_doc(rs.drop_first())
    }
}

pub proof fn lemma_csv_escape_push(s: Seq<char>, c: char)
    ensures
        csv_escape(s.push(c)) == csv_escape(s) + csv_esc_char(c),
    decreases s.len(),
{
    reveal_with_fuel(csv_escape, 2);
    if s.len() == 0 {
        assert(s.push(c)[0] == c);
        assert(s.push(c).drop_first() =~= Seq::<char>::empty());
        assert(csv_escape(s.push(c)) =~= csv_escape(s) + csv_esc_char(c));
    } else {
        assert(s.push(c)[0] == s[0]);
        assert(s.push(c).drop_first() =~= s.drop_first().push(c));
        lemma_csv_escape_push(s.drop_first(), c);
        assert(csv_escape(s.push(c)) =~= csv_escape(s) + csv_esc_char(c));
    }
}

pub proof fn lemma_csv_doc_push(
    rs: Seq<(Seq<char>, Seq<char>, Seq<char>)>,
    x: (Seq<char>, Seq<char>, Seq<char>),
)
    ensures
        csv_doc(rs.push(x)) == csv_doc(rs) + csv_record(x),
    decreases rs.len(),
{
    reveal_with_fuel(csv_doc, 2);
    if rs.len() == 0 {
        assert(rs.push(x)[0] == x);
        assert(rs.push(x).drop_first() =~= Seq::<(Seq<char>, Seq<char>, Seq<char>)>::empty());
        assert(csv_doc(rs.push(x)) =~= csv_doc(rs) + csv_record(x));
    } else {
        assert(rs.push(x)[0] == rs[0]);
        assert(rs.push(x).drop_first() =~= rs.drop_first().push(x));
        lemma_csv_doc_push(rs.drop_first(), x);
        assert(csv_doc(rs.push(x)) =~= csv_doc(rs) + csv_record(x));
    }
}

fn write_csv_field(out: &mut String, s: &str)
    ensures
        final(out)@ == old(out)@ + csv_field(s@),
{
    let n = s.unicode_len();
    push_char(out, '"');
    let ghost base = out@;
    proof {
        assert(csv_escape(s@.take(0)) =~= Seq::<char>::empty());
        assert(out@ =~= base + csv_escape(s@.take(0)));
    }
    let mut i: usize = 0;
    while i < n
        invariant
            n == s@.len(),
            i <= n,
            out@ == base + csv_escape(s@.take(i as int)),
        decreases n - i,
    {
        let c = s.get_char(i);
        if c == '"' {
            push_char(out, '"');
            push_char(out, '"');
        } else {
            push_char(out, c);
        }
        proof {
            assert(s@.take(i + 1) =~= s@.take(i as int).push(c));
            lemma_csv_escape_push(s@.take(i as int), c);
            assert(out@ =~= base + csv_escape(s@.take(i + 1)));
        }
        i = i + 1;
    }
    push_char(out, '"');
    proof {
        assert(s@.take(n as int) =~= s@);
        assert(out@ =~= old(out)@ + csv_field(s@));
    }
}

fn write_csv_record(out: &mut String, fe: &FlatEntry)
    ensures
        final(out)@ == old(out)@ + csv_record(rec_view(*fe)),
{
    write_csv_field(out, fe.history.as_str());
    push_char(out, ',');
    write_csv_field(out, fe.key.as_str());
    push_char(out, ',');
    write_csv_field(out, fe.value.as_str());
    push_char(out, '\n');
    proof {
        assert(out@ =~= old(out)@ + csv_record(rec_view(*fe)));
    }
}

/// Serialize records to a header-less CSV document, one record per
/// (history, key, value) triple.
pub fn records_to_csv(records: &Vec<FlatEntry>) -> (r: String)
    ensures
        r@ == csv_doc(recs_view(records@)),
{
    let n = records.len();
    let mut out = String::new();
    proof {
        assert(recs_view(records@).take(0) =~= Seq::<(Seq<char>, Seq<char>, Seq<char>)>::empty());
        assert(out@ =~= csv_doc(recs_view(records@).take(0)));
    }
    let mut i: usize = 0;
    while i < n
        invariant
            n == records@.len(),
            i <= n,
            out@ == csv_doc(recs_view(records@).take(i as int)),
        decreases n - i,
    {
        write_csv_record(&mut out, &records[i]);
        proof {
            assert(recs_view(records@).take(i + 1) =~= recs_view(records@).take(i as int).push(
                rec_view(records@[i as int]),
            ));
            lemma_csv_doc_push(
                recs_view(records@).take(i as int),
                rec_view(records@[i as int]),
            );
        }
        i = i + 1;
    }
    proof {
        assert(recs_view(records@).take(n as int) =~= recs_view(records@));
    }
    out
}

// ---------------------------------------------------------------------
// Parsing.  Fields may be quoted or bare; bare fields end at a comma or
// a line end and may not contain a quote; records have exactly three
// fields and end at a line feed, a carriage-return line feed, or the end
// of the document.  Anything else is corrupt.
// ---------------------------------------------------------------------
pub open spec fn p_qfield(t: Seq<char>, i: int) -> Option<(Seq<char>, int)>
    decreases t.len() - i,
{
    if i < 0 || i >= t.len() {
        None
    } else if t[i] == '"' {
        if i + 1 < t.len() && t[i + 1] == '"' {
            match p_qfield(t, i + 2) {
                None => None,
                Some((s, j)) => Some((seq!['"'] + s, j)),
            }
        } else {
            Some((Seq::empty(), i + 1))
        }
    } else {
        match p_qfield(t, i + 1) {
            None => None,
            Some((s, j)) => Some((seq![t[i]] + s, j)),
        }
    }
}

pub open spec fn p_ufield(t: Seq<char>, i: int) -> Option<(Seq<char>, int)>
    decreases t.len() - i,
{
    if i < 0 || i >= t.len() {
        Some((Seq::empty(), i))
    } else if t[i] == ',' || t[i] == '\n' || t[i] == '\r' {
        Some((Seq::empty(), i))
    } else if t[i] == '"' {
        None
    } else {
        match p_ufield(t, i + 1) {
            None => None,
            Some((s, j)) => Some((seq![t[i]] + s, j)),
        }
    }
}

pub open spec fn p_field(t: Seq<char>, i: int) -> Option<(Seq<char>, int)> {
    if 0 <= i < t.len() && t[i] == '"' {
        p_qfield(t, i + 1)
    } else {
        p_ufield(t, i)
    }
}

pub open spec fn p_record(t: Seq<char>, i: int) -> Option<
    ((Seq<char>, Seq<char>, Seq<char>), int),
> {
    match p_field(t, i) {
        None => None,
        Some((f1, i1)) => if 0 <= i1 < t.len() && t[i1] == ',' {
            match p_field(t, i1 + 1) {
                None => None,
                Some((f2, i2)) => if 0 <= i2 < t.len() && t[i2] == ',' {
                    match p_field(t, i2 + 1) {
                        None => None,
                        Some((f3, i3)) => if i3 >= t.len() {
                            Some(((f1, f2, f3), i3))
                        } else if t[i3] == '\n' {
                            Some(((f1, f2, f3), i3 + 1))
                        } else if t[i3] == '\r' && i3 + 1 < t.len() && t[i3 + 1] == '\n' {
                            Some(((f1, f2, f3), i3 + 2))
                        } else {
                            None
                        },
                    }
                } else {
                    None
                },
            }
        } else {
            None
        },
    }
}

pub open spec fn p_csv(t: Seq<char>, i: int) -> Option<Seq<(Seq<char>, Seq<char>, Seq<char>)>>
    decreases t.len() - i,
{
    if i >= t.len() {
        Some(Seq::empty())
    } else {
        match p_record(t, i) {
            None => None,
            Some((r, j)) => if i < j <= t.len() {
                match p_csv(t, j) {
                    None => None,
                    Some(rest) => Some(seq![r] + rest),
                }
            } else {
                None
            },
        }
    }
}

fn parse_qfield(t: &str, i: usize, n: usize) -> (r: Result<(String, usize), StoreError>)
    requires
        n == t@.len(),
        i <= n,
    ensures
        match r {
            Ok(p) => p_qfield(t@, i as int) == Some((p.0@, p.1 as int)) && i < p.1 <= n,
            Err(e) => e == StoreError::CorruptData && p_qfield(t@, i as int) is None,
        },
    decreases n - i,
{
    if i >= n {
        return Err(StoreError::CorruptData);
    }
    let c = t.get_char(i);
    if c == '"' {
        if i + 1 < n && t.get_char(i + 1) == '"' {
            match parse_qfield(t, i + 2, n) {
                Ok(p) => {
                    let (s, j) = p;
                    let mut out = String::new();
                    push_char(&mut out, '"');
                    out.append(s.as_str());
                    proof {
                        assert(out@ =~= seq!['"'] + s@);
                    }
                    Ok((out, j))
                },
                Err(e) => Err(e),
            }
        } else {
            Ok((String::new(), i + 1))
        }
    } else {
        match parse_qfield(t, i + 1, n) {
            Ok(p) => {
                let (s, j) = p;
                let mut out = String::new();
                push_char(&mut out, c);
                out.append(s.as_str());
                proof {
                    assert(out@ =~= seq![c] + s@);
                }
                Ok((out, j))
            },
            Err(e) => Err(e),
        }
    }
}

fn parse_ufield(t: &str, i: usize, n: usize) -> (r: Result<(String, usize), StoreError>)
    requires
        n == t@.len(),
        i <= n,
    ensures
        match r {
            Ok(p) => p_ufield(t@, i as int) == Some((p.0@, p.1 as int)) && i <= p.1 <= n,
            Err(e) => e == StoreError::CorruptData && p_ufield(t@, i as int) is None,
        },
    decreases n - i,
{
    if i >= n {
        return Ok((String::new(), i));
    }
    let c = t.get_char(i);
    if c == ',' || c == '\n' || c == '\r' {
        return Ok((String::new(), i));
    }
    if c == '"' {
        return Err(StoreError::CorruptData);
    }
    match parse_ufield(t, i + 1, n) {
        Ok(p) => {
            let (s, j) = p;
            let mut out = String::new();
            push_char(&mut out, c);
            out.append(s.as_str());
            proof {
                assert(out@ =~= seq![c] + s@);
            }
            Ok((out, j))
        },
        Err(e) => Err(e),
    }
}

fn parse_field(t: &str, i: usize, n: usize) -> (r: Result<(String, usize), StoreError>)
    requires
        n == t@.len(),
        i <= n,
    ensures
        match r {
            Ok(p) => p_field(t@, i as int) == Some((p.0@, p.1 as int)) && i <= p.1 <= n,
            Err(e) => e == StoreError::CorruptData && p_field(t@, i as int) is None,
        },
{
    if i < n && t.get_char(i) == '"' {
        parse_qfield(t, i + 1, n)
    } else {
        parse_ufield(t, i, n)
    }
}

fn parse_record(t: &str, i: usize, n: usize) -> (r: Result<(FlatEntry, usize), StoreError>)
    requires
        n == t@.len(),
        i <= n,
    ensures
        match r {
            Ok(p) => p_record(t@, i as int) == Some((rec_view(p.0), p.1 as int)) && i < p.1
                <= n,
            Err(e) => e == StoreError::CorruptData && p_record(t@, i as int) is None,
        },
{
    let (f1, i1) = match parse_field(t, i, n) {
        Ok(p) => p,
        Err(e) => {
            return Err(e);
        },
    };
    if !(i1 < n && t.get_char(i1) == ',') {
        return Err(StoreError::CorruptData);
    }
    let (f2, i2) = match parse_field(t, i1 + 1, n) {
        Ok(p) => p,
        Err(e) => {
            return Err(e);
        },
    };
    if !(i2 < n && t.get_char(i2) == ',') {
        return Err(StoreError::CorruptData);
    }
    let (f3, i3) = match parse_field(t, i2 + 1, n) {
        Ok(p) => p,
        Err(e) => {
            return Err(e);
        },
    };
    let fe = FlatEntry { history: f1, key: f2, value: f3 };
    if i3 >= n {
        Ok((fe, i3))
    } else if t.get_char(i3) == '\n' {
        Ok((fe, i3 + 1))
    } else if t.get_char(i3) == '\r' && i3 + 1 < n && t.get_char(i3 + 1) == '\n' {
        Ok((fe, i3 + 2))
    } else {
        Err(StoreError::CorruptData)
    }
}

fn parse_csv_from(t: &str, i: usize, n: usize) -> (r: Result<Vec<FlatEntry>, StoreError>)
    requires
        n == t@.len(),
        i <= n,
    ensures
        match r {
            Ok(v) => p_csv(t@, i as int) == Some(recs_view(v@)),
            Err(e) => e == StoreError::CorruptData && p_csv(t@, i as int) is None,
        },
    decreases n - i,
{
    if i >= n {
        let v: Vec<FlatEntry> = Vec::new();
        proof {
            assert(recs_view(v@) =~= Seq::<(Seq<char>, Seq<char>, Seq<char>)>::empty());
        }
        return Ok(v);
    }
    match parse_record(t, i, n) {
        Err(e) => Err(e),
        Ok(p) => {
            let (fe, j) = p;
            match parse_csv_from(t, j, n) {
                Err(e) => Err(e),
                Ok(mut v) => {
                    let ghost v0 = v@;
                    v.insert(0, fe);
                    proof {
                        assert(recs_view(v@) =~= seq![rec_view(fe)] + recs_view(v0));
                    }
                    Ok(v)
                },
            }
        },
    }
}

/// Parse a header-less CSV document into (history, key, value) records;
/// `CorruptData` when any row does not have exactly three fields.
pub fn records_from_csv(text: &str) -> (r: Result<Vec<FlatEntry>, StoreError>)
    ensures
        match r {
            Ok(v) => p_csv(text@, 0) == Some(recs_view(v@)),
            Err(e) => e == StoreError::CorruptData && p_csv(text@, 0) is None,
        },
{
    let n = text.unicode_len();
    parse_csv_from(text, 0, n)
}

// ---------------------------------------------------------------------
// Round trip: parsing an emitted document yields the emitted records.
// ---------------------------------------------------------------------
/// A range of `t` that equals a concatenation splits into two adjacent
/// subranges equal to the two parts.
pub proof fn lemma_subrange_split(t: Seq<char>, i: int, j: int, x: Seq<char>, y: Seq<char>)
    requires
        0 <= i <= j <= t.len(),
        t.subrange(i, j) == x + y,
    ensures
        t.subrange(i, i + x.len()) == x,
        t.subrange(i + x.len(), j) == y,
{
    let m = i + x.len();
    assert(t.subrange(i, j).len() == j - i);
    assert((x + y).len() == x.len() + y.len());
    assert(m <= j);
    assert forall|k: int| 0 <= k < x.len() implies t.subrange(i, m)[k] == x[k] by {
        assert(t.subrange(i, m)[k] == t[i + k]);
        assert(t.subrange(i, j)[k] == t[i + k]);
        assert((x + y)[k] == x[k]);
    }
    assert(t.subrange(i, m) =~= x);
    assert forall|k: int| 0 <= k < y.len() implies t.subrange(m, j)[k] == y[k] by {
        assert(t.subrange(m, j)[k] == t[m + k]);
        assert(t.subrange(i, j)[x.len() + k] == t[i + (x.len() + k)]);
        assert((x + y)[x.len() + k] == y[k]);
        assert(i + (x.len() + k) == m + k);
    }
    assert(t.subrange(m, j) =~= y);
}

/// The single character at the start of a known one-character subrange.
pub proof fn lemma_subrange_char(t: Seq<char>, i: int, c: char)
    requires
        0 <= i < t.len(),
        t.subrange(i, i + 1) == seq![c],
    ensures
        t[i] == c,
{
    assert(t.subrange(i, i + 1)[0] == t[i]);
}

pub proof fn lemma_p_qfield_emit(t: Seq<char>, i: int, s: Seq<char>, j: int)
    requires
        0 <= i <= j <= t.len(),
        t.subrange(i, j) == csv_escape(s) + seq!['"'],
        j == t.len() || t[j] != '"',
    ensures
        p_qfield(t, i) == Some((s, j)),
    decreases s.len(),
{
    if s.len() == 0 {
        assert(csv_escape(s) == Seq::<char>::empty());
        assert(t.subrange(i, j) =~= seq!['"']);
        assert(j == i + 1);
        lemma_subrange_char(t, i, '"');
        assert(s =~= Seq::<char>::empty());
    } else {
        let c = s[0];
        let s1 = s.drop_first();
        assert(csv_escape(s) == csv_esc_char(c) + csv_escape(s1));
        let rest = csv_escape(s1) + seq!['"'];
        if c == '"' {
            assert(t.subrange(i, j) =~= seq!['"', '"'] + rest);
            lemma_subrange_split(t, i, j, seq!['"', '"'], rest);
            assert(t.subrange(i, i + 2) == seq!['"', '"']);
            assert(t.subrange(i, i + 2)[0] == t[i]);
            assert(t.subrange(i, i + 2)[1] == t[i + 1]);
            assert(t[i] == '"' && t[i + 1] == '"');
            lemma_p_qfield_emit(t, i + 2, s1, j);
            assert(seq!['"'] + s1 =~= s);
        } else {
            assert(t.subrange(i, j) =~= seq![c] + rest);
            lemma_subrange_split(t, i, j, seq![c], rest);
            lemma_subrange_char(t, i, c);
            lemma_p_qfield_emit(t, i + 1, s1, j);
            assert(seq![c] + s1 =~= s);
        }
    }
}

pub proof fn lemma_p_field_emit(t: Seq<char>, i: int, s: Seq<char>, j: int)
    requires
        0 <= i < j <= t.len(),
        t.subrange(i, j) == csv_field(s),
        j == t.len() || t[j] != '"',
    ensures
        p_field(t, i) == Some((s, j)),
{
    let rest = csv_escape(s) + seq!['"'];
    assert(t.subrange(i, j) =~= seq!['"'] + rest);
    lemma_subrange_split(t, i, j, seq!['"'], rest);
    lemma_subrange_char(t, i, '"');
    lemma_p_qfield_emit(t, i + 1, s, j);
}

pub proof fn lemma_p_record_emit(
    t: Seq<char>,
    i: int,
    r: (Seq<char>, Seq<char>, Seq<char>),
    j: int,
)
    requires
        0 <= i <= j <= t.len(),
        t.subrange(i, j) == csv_record(r),
    ensures
        p_record(t, i) == Some((r, j)),
{
    let fa = csv_field(r.0);
    let fb = csv_field(r.1);
    let fc = csv_field(r.2);
    let i1 = i + fa.len();
    let i2 = i1 + 1 + fb.len();
    let i3 = i2 + 1 + fc.len();
    let r1 = seq![','] + fb + seq![','] + fc + seq!['\n'];
    assert(t.subrange(i, j) =~= fa + r1);
    lemma_subrange_split(t, i, j, fa, r1);
    let r2 = fb + seq![','] + fc + seq!['\n'];
    assert(t.subrange(i1, j) =~= seq![','] + r2);
    lemma_subrange_split(t, i1, j, seq![','], r2);
    lemma_subrange_char(t, i1, ',');
    let r3 = seq![','] + fc + seq!['\n'];
    assert(t.subrange(i1 + 1, j) =~= fb + r3);
    lemma_subrange_split(t, i1 + 1, j, fb, r3);
    let r4 = fc + seq!['\n'];
    assert(t.subrange(i2, j) =~= seq![','] + r4);
    lemma_subrange_split(t, i2, j, seq![','], r4);
    lemma_subrange_char(t, i2, ',');
    assert(t.subrange(i2 + 1, j) =~= fc + seq!['\n']);
    lemma_subrange_split(t, i2 + 1, j, fc, seq!['\n']);
    assert(t.subrange(i3, j) == seq!['\n']);
    assert(j == i3 + 1);
    lemma_subrange_char(t, i3, '\n');
    lemma_p_field_emit(t, i, r.0, i1);
    lemma_p_field_emit(t, i1 + 1, r.1, i2);
    lemma_p_field_emit(t, i2 + 1, r.2, i3);
}

pub proof fn lemma_p_csv_emit(t: Seq<char>, i: int, rs: Seq<(Seq<char>, Seq<char>, Seq<char>)>)
    requires
        0 <= i <= t.len(),
        t.subrange(i, t.len() as int) == csv_doc(rs),
    ensures
        p_csv(t, i) == Some(rs),
    decreases rs.len(),
{
    if rs.len() == 0 {
        assert(csv_doc(rs) == Seq::<char>::empty());
        assert(t.subrange(i, t.len() as int).len() == 0);
        assert(t.len() - i == 0);
    } else {
        let r0 = rs[0];
        let rest = rs.drop_first();
        assert(csv_doc(rs) == csv_record(r0) + csv_doc(rest));
        let j = i + csv_record(r0).len();
        lemma_subrange_split(t, i, t.len() as int, csv_record(r0), csv_doc(rest));
        lemma_p_record_emit(t, i, r0, j);
        lemma_p_csv_emit(t, j, rest);
        assert(csv_record(r0).len() > 0);
        assert(seq![r0] + rest =~= rs);
    }
}

/// Parsing an emitted CSV document yields exactly the emitted records,
/// empty-string fields included.
pub proof fn lemma_csv_round_trip(rs: Seq<(Seq<char>, Seq<char>, Seq<char>)>)
    ensures
        p_csv(csv_doc(rs), 0) == Some(rs),
{
    let t = csv_doc(rs);
    assert(t.subrange(0, t.len() as int) =~= t);
    lemma_p_csv_emit(t, 0, rs);
}

} // verus!
