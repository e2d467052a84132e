use vstd::prelude::*;
use vstd::string::*;
use crate::errors::StoreError;
use crate::store::{Entry, History, Store, unique_keys, unique_names};
use crate::strutil::{char_from_u32, push_char, str_eq};

verus! {

// ---------------------------------------------------------------------
// The canonical persisted document: a pretty-printed JSON object mapping
// each history name to an object mapping keys to values.  Emission is
// deterministic; strings are escaped with the standard short escapes and
// a four-digit hex escape for the remaining control characters.
// ---------------------------------------------------------------------
pub open spec fn hex_char(n: int) -> char {
    if n == 0 {
        '0'
    } else if n == 1 {
        '1'
    } else if n == 2 {
        '2'
    } else if n == 3 {
        '3'
    } else if n == 4 {
        '4'
    } else if n == 5 {
        '5'
    } else if n == 6 {
        '6'
    } else if n == 7 {
        '7'
    } else if n == 8 {
        '8'
    } else if n == 9 {
        '9'
    } else if n == 10 {
        'a'
    } else if n == 11 {
        'b'
    } else if n == 12 {
        'c'
    } else if n == 13 {
        'd'
    } else if n == 14 {
        'e'
    } else {
        'f'
    }
}

pub open spec fn hex_val(c: char) -> int {
    if c == '0' {
        0
    } else if c == '1' {
        1
    } else if c == '2' {
        2
    } else if c == '3' {
        3
    } else if c == '4' {
        4
    } else if c == '5' {
        5
    } else if c == '6' {
        6
    } else if c == '7' {
        7
    } else if c == '8' {
        8
    } else if c == '9' {
        9
    } else if c == 'a' || c == 'A' {
        10
    } else if c == 'b' || c == 'B' {
        11
    } else if c == 'c' || c == 'C' {
        12
    } else if c == 'd' || c == 'D' {
        13
    } else if c == 'e' || c == 'E' {
        14
    } else if c == 'f' || c == 'F' {
        15
    } else {
        -1
    }
}

pub open spec fn jesc_char(c: char) -> Seq<char> {
    if c == '"' {
        seq!['\\', '"']
    } else if c == '\\' {
        seq!['\\', '\\']
    } else if c == '\n' {
        seq!['\\', 'n']
    } else if c == '\r' {
        seq!['\\', 'r']
    } else if c == '\t' {
        seq!['\\', 't']
    } else if (c as u32) < 0x20 {
        seq!['\\', 'u', '0', '0', hex_char((c as u32) as int / 16), hex_char(
            (c as u32) as int % 16,
        )]
    } else {
        seq![c]
    }
}

pub open spec fn jesc(s: Seq<char>) -> Seq<char>
    decreases s.len(),
{
    if s.len() == 0 {
        Seq::empty()
    } else {
        jesc_char(s[0]) + jesc(s.drop_first())
    }
}

pub open spec fn jquote(s: Seq<char>) -> Seq<char> {
    seq!['"'] + jesc(s) + seq!['"']
}

pub open spec fn json_entry(e: Entry) -> Seq<char> {
    seq!['\n', ' ', ' ', ' ', ' '] + jquote(e.key@) + seq![':', ' '] + jquote(e.value@)
}

pub open spec fn json_entries_tail(es: Seq<Entry>) -> Seq<char>
    decreases es.len(),
{
    if es.len() == 0 {
        Seq::empty()
    } else {
        seq![','] + json_entry(es[0]) + json_entries_tail(es.drop_first())
    }
}

pub open spec fn json_entries(es: Seq<Entry>) -> Seq<char> {
    if es.len() == 0 {
        Seq::empty()
    } else {
        json_entry(es[0]) + json_entries_tail(es.drop_first())
    }
}

pub open spec fn json_obj(es: Seq<Entry>) -> Seq<char> {
    if es.len() == 0 {
        seq!['{', '}']
    } else {
        seq!['{'] + json_entries(es) + seq!['\n', ' ', ' ', '}']
    }
}

pub open spec fn json_hist(h: History) -> Seq<char> {
    seq!['\n', ' ', ' '] + jquote(h.name@) + seq![':', ' '] + json_obj(h.entries@)
}

pub open spec fn json_hists_tail(hs: Seq<History>) -> Seq<char>
    decreases hs.len(),
{
    if hs.len() == 0 {
        Seq::empty()
    } else {
        seq![','] + json_hist(hs[0]) + json_hists_tail(hs.drop_first())
    }
}

pub open spec fn json_hists(hs: Seq<History>) -> Seq<char> {
    if hs.len() == 0 {
        Seq::empty()
    } else {
        json_hist(hs[0]) + json_hists_tail(hs.drop_first())
    }
}

pub open spec fn json_doc(hs: Seq<History>) -> Seq<char> {
    if hs.len() == 0 {
        seq!['{', '}']
    } else {
        seq!['{'] + json_hists(hs) + seq!['\n', '}']
    }
}

pub proof fn lemma_jesc_push(s: Seq<char>, c: char)
    ensures
        jesc(s.push(c)) == jesc(s) + jesc_char(c),
    decreases s.len(),
{
    reveal_with_fuel(jesc, 2);
    if s.len() == 0 {
        assert(s.push(c)[0] == c);
        assert(s.push(c).drop_first() =~= Seq::<char>::empty());
        assert(jesc(s.push(c)) =~= jesc(s) + jesc_char(c));
    } else {
        assert(s.push(c)[0] == s[0]);
        assert(s.push(c).drop_first() =~= s.drop_first().push(c));
        lemma_jesc_push(s.drop_first(), c);
        assert(jesc(s.push(c)) =~= jesc(s) + jesc_char(c));
    }
}

pub proof fn lemma_json_entries_tail_push(es: Seq<Entry>, e: Entry)
    ensures
        json_entries_tail(es.push(e)) == json_entries_tail(es) + seq![','] + json_entry(e),
    decreases es.len(),
{
    reveal_with_fuel(json_entries_tail, 2);
    if es.len() == 0 {
        assert(es.push(e)[0] == e);
        assert(es.push(e).drop_first() =~= Seq::<Entry>::empty());
        assert(json_entries_tail(es.push(e)) =~= json_entries_tail(es) + seq![','] + json_entry(
            e,
        ));
    } else {
        assert(es.push(e)[0] == es[0]);
        assert(es.push(e).drop_first() =~= es.drop_first().push(e));
        lemma_json_entries_tail_push(es.drop_first(), e);
        assert(json_entries_tail(es.push(e)) =~= json_entries_tail(es) + seq![','] + json_entry(
            e,
        ));
    }
}

pub proof fn lemma_json_entries_push(es: Seq<Entry>, e: Entry)
    ensures
        json_entries(es.push(e)) == if es.len() == 0 {
            json_entry(e)
        } else {
            json_entries(es) + seq![','] + json_entry(e)
        },
{
    if es.len() == 0 {
        assert(es.push(e)[0] == e);
        assert(es.push(e).drop_first() =~= Seq::<Entry>::empty());
        assert(json_entries(es.push(e)) =~= json_entry(e));
    } else {
        assert(es.push(e)[0] == es[0]);
        assert(es.push(e).drop_first() =~= es.drop_first().push(e));
        lemma_json_entries_tail_push(es.drop_first(), e);
        assert(json_entries(es.push(e)) =~= json_entries(es) + seq![','] + json_entry(e));
    }
}

pub proof fn lemma_json_hists_tail_push(hs: Seq<History>, h: History)
    ensures
        json_hists_tail(hs.push(h)) == json_hists_tail(hs) + seq![','] + json_hist(h),
    decreases hs.len(),
{
    reveal_with_fuel(json_hists_tail, 2);
    if hs.len() == 0 {
        assert(hs.push(h)[0] == h);
        assert(hs.push(h).drop_first() =~= Seq::<History>::empty());
        assert(json_hists_tail(hs.push(h)) =~= json_hists_tail(hs) + seq![','] + json_hist(h));
    } else {
        assert(hs.push(h)[0] == hs[0]);
        assert(hs.push(h).drop_first() =~= hs.drop_first().push(h));
        lemma_json_hists_tail_push(hs.drop_first(), h);
        assert(json_hists_tail(hs.push(h)) =~= json_hists_tail(hs) + seq![','] + json_hist(h));
    }
}

pub proof fn lemma_json_hists_push(hs: Seq<History>, h: History)
    ensures
        json_hists(hs.push(h)) == if hs.len() == 0 {
            json_hist(h)
        } else {
            json_hists(hs) + seq![','] + json_hist(h)
        },
{
    if hs.len() == 0 {
        assert(hs.push(h)[0] == h);
        assert(hs.push(h).drop_first() =~= Seq::<History>::empty());
        assert(json_hists(hs.push(h)) =~= json_hist(h));
    } else {
        assert(hs.push(h)[0] == hs[0]);
        assert(hs.push(h).drop_first() =~= hs.drop_first().push(h));
        lemma_json_hists_tail_push(hs.drop_first(), h);
        assert(json_hists(hs.push(h)) =~= json_hists(hs) + seq![','] + json_hist(h));
    }
}

fn hex_char_of(d: u32) -> (c: char)
    requires
        d < 16,
    ensures
        c == hex_char(d as int),
{
    if d == 0 {
        '0'
    } else if d == 1 {
        '1'
    } else if d == 2 {
        '2'
    } else if d == 3 {
        '3'
    } else if d == 4 {
        '4'
    } else if d == 5 {
        '5'
    } else if d == 6 {
        '6'
    } else if d == 7 {
        '7'
    } else if d == 8 {
        '8'
    } else if d == 9 {
        '9'
    } else if d == 10 {
        'a'
    } else if d == 11 {
        'b'
    } else if d == 12 {
        'c'
    } else if d == 13 {
        'd'
    } else if d == 14 {
        'e'
    } else {
        'f'
    }
}

fn write_jstring(out: &mut String, s: &str)
    ensures
        final(out)@ == old(out)@ + jquote(s@),
{
    let n = s.unicode_len();
    push_char(out, '"');
    let ghost base = out@;
    proof {
        assert(jesc(s@.take(0)) =~= Seq::<char>::empty());
        assert(out@ =~= base + jesc(s@.take(0)));
    }
    let mut i: usize = 0;
    while i < n
        invariant
            n == s@.len(),
            i <= n,
            out@ == base + jesc(s@.take(i as int)),
        decreases n - i,
    {
        let c = s.get_char(i);
        if c == '"' {
            push_char(out, '\\');
            push_char(out, '"');
        } else if c == '\\' {
            push_char(out, '\\');
            push_char(out, '\\');
        } else if c == '\n' {
            push_char(out, '\\');
            push_char(out, 'n');
        } else if c == '\r' {
            push_char(out, '\\');
            push_char(out, 'r');
        } else if c == '\t' {
            push_char(out, '\\');
            push_char(out, 't');
        } else {
            let v = c as u32;
            if v < 0x20 {
                push_char(out, '\\');
                push_char(out, 'u');
                push_char(out, '0');
                push_char(out, '0');
                push_char(out, hex_char_of(v / 16));
                push_char(out, hex_char_of(v % 16));
            } else {
                push_char(out, c);
            }
        }
        proof {
            assert(s@.take(i + 1) =~= s@.take(i as int).push(c));
            lemma_jesc_push(s@.take(i as int), c);
            assert(out@ =~= base + jesc(s@.take(i + 1)));
        }
        i = i + 1;
    }
    push_char(out, '"');
    proof {
        assert(s@.take(n as int) =~= s@);
        assert(out@ =~= old(out)@ + jquote(s@));
    }
}

fn write_json_obj(out: &mut String, es: &Vec<Entry>)
    ensures
        final(out)@ == old(out)@ + json_obj(es@),
{
    let n = es.len();
    push_char(out, '{');
    if n == 0 {
        push_char(out, '}');
        proof {
            assert(out@ =~= old(out)@ + json_obj(es@));
        }
        return ;
    }
    let ghost base = out@;
    let mut i: usize = 0;
    while i < n
        invariant
            n == es@.len(),
            0 < n,
            i <= n,
            out@ == base + json_entries(es@.take(i as int)),
        decreases n - i,
    {
        if i > 0 {
            push_char(out, ',');
        }
        let e = &es[i];
        push_char(out, '\n');
        push_char(out, ' ');
        push_char(out, ' ');
        push_char(out, ' ');
        push_char(out, ' ');
        write_jstring(out, e.key.as_str());
        push_char(out, ':');
        push_char(out, ' ');
        write_jstring(out, e.value.as_str());
        proof {
            assert(es@.take(i + 1) =~= es@.take(i as int).push(es@[i as int]));
            lemma_json_entries_push(es@.take(i as int), es@[i as int]);
            assert(out@ =~= base + json_entries(es@.take(i + 1)));
        }
        i = i + 1;
    }
    push_char(out, '\n');
    push_char(out, ' ');
    push_char(out, ' ');
    push_char(out, '}');
    proof {
        assert(es@.take(n as int) =~= es@);
        assert(out@ =~= old(out)@ + json_obj(es@));
    }
}

/// Serialize the store to the canonical pretty-printed JSON document.
/// The output is deterministic for a fixed store.
#[verifier::rlimit(100)]
pub fn store_to_json(s: &Store) -> (r: String)
    ensures
        r@ == json_doc(s.histories@),
{
    let n = s.histories.len();
    let mut out = String::new();
    push_char(&mut out, '{');
    if n == 0 {
        push_char(&mut out, '}');
        proof {
            assert(out@ =~= json_doc(s.histories@));
        }
        return out;
    }
    let ghost base = out@;
    let mut i: usize = 0;
    while i < n
        invariant
            n == s.histories@.len(),
            0 < n,
            i <= n,
            out@ == base + json_hists(s.histories@.take(i as int)),
        decreases n - i,
    {
        if i > 0 {
            push_char(&mut out, ',');
        }
        let h = &s.histories[i];
        push_char(&mut out, '\n');
        push_char(&mut out, ' ');
        push_char(&mut out, ' ');
        write_jstring(&mut out, h.name.as_str());
        push_char(&mut out, ':');
        push_char(&mut out, ' ');
        write_json_obj(&mut out, &h.entries);
        proof {
            assert(s.histories@.take(i + 1) =~= s.histories@.take(i as int).push(
                s.histories@[i as int],
            ));
            lemma_json_hists_push(s.histories@.take(i as int), s.histories@[i as int]);
            assert(out@ =~= base + json_hists(s.histories@.take(i + 1)));
        }
        i = i + 1;
    }
    push_char(&mut out, '\n');
    push_char(&mut out, '}');
    proof {
        assert(s.histories@.take(n as int) =~= s.histories@);
        assert(out@ =~= json_doc(s.histories@));
    }
    out
}

} // verus!

verus! {

// ---------------------------------------------------------------------
// Parsing.  The parser accepts the canonical two-level document with
// arbitrary whitespace between tokens, the standard short escapes, and
// four-hex-digit escapes for scalar values outside the surrogate range.
// Anything else, and duplicate names or keys, is corrupt.
// ---------------------------------------------------------------------
pub open spec fn is_ws(c: char) -> bool {
    c == ' ' || c == '\t' || c == '\n' || c == '\r'
}

pub open spec fn skip_ws(t: Seq<char>, i: int) -> int
    decreases t.len() - i,
{
    if 0 <= i < t.len() && is_ws(t[i]) {
        skip_ws(t, i + 1)
    } else {
        i
    }
}

pub open spec fn p_jesc(t: Seq<char>, i: int) -> Option<(char, int)> {
    if i < 0 || i >= t.len() {
        None
    } else if t[i] == '"' {
        Some(('"', i + 1))
    } else if t[i] == '\\' {
        Some(('\\', i + 1))
    } else if t[i] == '/' {
        Some(('/', i + 1))
    } else if t[i] == 'n' {
        Some(('\n', i + 1))
    } else if t[i] == 'r' {
        Some(('\r', i + 1))
    } else if t[i] == 't' {
        Some(('\t', i + 1))
    } else if t[i] == 'b' {
        Some(('\u{0008}', i + 1))
    } else if t[i] == 'f' {
        Some(('\u{000C}', i + 1))
    } else if t[i] == 'u' {
        if i + 4 < t.len() && hex_val(t[i + 1]) >= 0 && hex_val(t[i + 2]) >= 0 && hex_val(
            t[i + 3],
        ) >= 0 && hex_val(t[i + 4]) >= 0 {
            let v = ((hex_val(t[i + 1]) * 16 + hex_val(t[i + 2])) * 16 + hex_val(t[i + 3])) * 16
                + hex_val(t[i + 4]);
            if v < 0xD800 || (0xE000 <= v && v <= 0x10FFFF) {
                Some((((v as u32) as char), i + 5))
            } else {
                None
            }
        } else {
            None
        }
    } else {
        None
    }
}

pub open spec fn p_jstr_body(t: Seq<char>, i: int) -> Option<(Seq<char>, int)>
    decreases t.len() - i,
{
    if i < 0 || i >= t.len() {
        None
    } else if t[i] == '"' {
        Some((Seq::empty(), i + 1))
    } else if t[i] == '\\' {
        match p_jesc(t, i + 1) {
            None => None,
            Some((c, j)) => if i + 1 < j && j <= t.len() {
                match p_jstr_body(t, j) {
                    None => None,
                    Some((s, k)) => Some((seq![c] + s, k)),
                }
            } else {
                None
            },
        }
    } else if (t[i] as u32) < 0x20 {
        None
    } else {
        match p_jstr_body(t, i + 1) {
            None => None,
            Some((s, k)) => Some((seq![t[i]] + s, k)),
        }
    }
}

pub open spec fn p_jstring(t: Seq<char>, i: int) -> Option<(Seq<char>, int)> {
    if 0 <= i < t.len() && t[i] == '"' {
        p_jstr_body(t, i + 1)
    } else {
        None
    }
}

pub open spec fn p_pair_e(t: Seq<char>, i: int) -> Option<((Seq<char>, Seq<char>), int)> {
    let a = skip_ws(t, i);
    match p_jstring(t, a) {
        None => None,
        Some((k, b)) => {
            let c = skip_ws(t, b);
            if 0 <= c < t.len() && t[c] == ':' {
                let d = skip_ws(t, c + 1);
                match p_jstring(t, d) {
                    None => None,
                    Some((v, e)) => Some(((k, v), e)),
                }
            } else {
                None
            }
        },
    }
}

pub open spec fn p_entry_tail(t: Seq<char>, i: int) -> Option<(Seq<(Seq<char>, Seq<char>)>, int)>
    decreases t.len() - i,
{
    let a = skip_ws(t, i);
    if 0 <= a < t.len() && t[a] == '}' {
        Some((Seq::empty(), a + 1))
    } else if 0 <= a < t.len() && t[a] == ',' {
        match p_pair_e(t, a + 1) {
            None => None,
            Some((p, j)) => if i < j && j <= t.len() {
                match p_entry_tail(t, j) {
                    None => None,
                    Some((ps, k)) => Some((seq![p] + ps, k)),
                }
            } else {
                None
            },
        }
    } else {
        None
    }
}

pub open spec fn p_obj(t: Seq<char>, i: int) -> Option<(Seq<(Seq<char>, Seq<char>)>, int)> {
    if 0 <= i < t.len() && t[i] == '{' {
        let a = skip_ws(t, i + 1);
        if 0 <= a < t.len() && t[a] == '}' {
            Some((Seq::empty(), a + 1))
        } else {
            match p_pair_e(t, i + 1) {
                None => None,
                Some((p, j)) => match p_entry_tail(t, j) {
                    None => None,
                    Some((ps, k)) => Some((seq![p] + ps, k)),
                },
            }
        }
    } else {
        None
    }
}

pub open spec fn p_pair_h(t: Seq<char>, i: int) -> Option<
    ((Seq<char>, Seq<(Seq<char>, Seq<char>)>), int),
> {
    let a = skip_ws(t, i);
    match p_jstring(t, a) {
        None => None,
        Some((nm, b)) => {
            let c = skip_ws(t, b);
            if 0 <= c < t.len() && t[c] == ':' {
                let d = skip_ws(t, c + 1);
                match p_obj(t, d) {
                    None => None,
                    Some((es, e)) => Some(((nm, es), e)),
                }
            } else {
                None
            }
        },
    }
}

pub open spec fn p_hist_tail(t: Seq<char>, i: int) -> Option<
    (Seq<(Seq<char>, Seq<(Seq<char>, Seq<char>)>)>, int),
>
    decreases t.len() - i,
{
    let a = skip_ws(t, i);
    if 0 <= a < t.len() && t[a] == '}' {
        Some((Seq::empty(), a + 1))
    } else if 0 <= a < t.len() && t[a] == ',' {
        match p_pair_h(t, a + 1) {
            None => None,
            Some((p, j)) => if i < j && j <= t.len() {
                match p_hist_tail(t, j) {
                    None => None,
                    Some((ps, k)) => Some((seq![p] + ps, k)),
                }
            } else {
                None
            },
        }
    } else {
        None
    }
}

pub open spec fn p_doc(t: Seq<char>) -> Option<Seq<(Seq<char>, Seq<(Seq<char>, Seq<char>)>)>> {
    let i0 = skip_ws(t, 0);
    if 0 <= i0 < t.len() && t[i0] == '{' {
        let a = skip_ws(t, i0 + 1);
        if 0 <= a < t.len() && t[a] == '}' {
            if skip_ws(t, a + 1) == t.len() {
                Some(Seq::empty())
            } else {
                None
            }
        } else {
            match p_pair_h(t, i0 + 1) {
                None => None,
                Some((p, j)) => match p_hist_tail(t, j) {
                    None => None,
                    Some((ps, k)) => if skip_ws(t, k) == t.len() {
                        Some(seq![p] + ps)
                    } else {
                        None
                    },
                },
            }
        }
    } else {
        None
    }
}

// ---------------------------------------------------------------------
// Raw views and well-formedness of parsed documents.
// ---------------------------------------------------------------------
pub open spec fn raw_entries(es: Seq<Entry>) -> Seq<(Seq<char>, Seq<char>)> {
    es.map(|i: int, e: Entry| (e.key@, e.value@))
}

pub open spec fn raw_of(hs: Seq<History>) -> Seq<(Seq<char>, Seq<(Seq<char>, Seq<char>)>)> {
    hs.map(|i: int, h: History| (h.name@, raw_entries(h.entries@)))
}

pub open spec fn entries_match_raw(es: Seq<Entry>, raw: Seq<(Seq<char>, Seq<char>)>) -> bool {
    es.len() == raw.len() && forall|i: int|
        0 <= i < raw.len() ==> (#[trigger] es[i]).key@ == raw[i].0 && es[i].value@ == raw[i].1
}

pub open spec fn hists_match_raw(
    hs: Seq<History>,
    raw: Seq<(Seq<char>, Seq<(Seq<char>, Seq<char>)>)>,
) -> bool {
    hs.len() == raw.len() && forall|i: int|
        0 <= i < raw.len() ==> (#[trigger] hs[i]).name@ == raw[i].0 && entries_match_raw(
            hs[i].entries@,
            raw[i].1,
        )
}

pub open spec fn raw_entries_unique(pr: Seq<(Seq<char>, Seq<char>)>) -> bool {
    forall|i: int, j: int|
        0 <= i < j < pr.len() ==> (#[trigger] pr[i]).0 != (#[trigger] pr[j]).0
}

pub open spec fn raw_ok(raw: Seq<(Seq<char>, Seq<(Seq<char>, Seq<char>)>)>) -> bool {
    &&& forall|i: int, j: int|
        0 <= i < j < raw.len() ==> (#[trigger] raw[i]).0 != (#[trigger] raw[j]).0
    &&& forall|i: int| 0 <= i < raw.len() ==> raw_entries_unique((#[trigger] raw[i]).1)
}

} // verus!

verus! {

fn e_skip_ws(t: &str, i: usize, n: usize) -> (r: usize)
    requires
        n == t@.len(),
        i <= n,
    ensures
        r == skip_ws(t@, i as int),
        i <= r <= n,
    decreases n - i,
{
    if i < n {
        let c = t.get_char(i);
        if c == ' ' || c == '\t' || c == '\n' || c == '\r' {
            return e_skip_ws(t, i + 1, n);
        }
    }
    i
}

fn hex_val_of(c: char) -> (v: i32)
    ensures
        v == hex_val(c),
{
    if c == '0' {
        0
    } else if c == '1' {
        1
    } else if c == '2' {
        2
    } else if c == '3' {
        3
    } else if c == '4' {
        4
    } else if c == '5' {
        5
    } else if c == '6' {
        6
    } else if c == '7' {
        7
    } else if c == '8' {
        8
    } else if c == '9' {
        9
    } else if c == 'a' || c == 'A' {
        10
    } else if c == 'b' || c == 'B' {
        11
    } else if c == 'c' || c == 'C' {
        12
    } else if c == 'd' || c == 'D' {
        13
    } else if c == 'e' || c == 'E' {
        14
    } else if c == 'f' || c == 'F' {
        15
    } else {
        -1
    }
}

fn e_parse_jesc(t: &str, i: usize, n: usize) -> (r: Result<(char, usize), StoreError>)
    requires
        n == t@.len(),
        i <= n,
    ensures
        match r {
            Ok(p) => p_jesc(t@, i as int) == Some((p.0, p.1 as int)) && i < p.1 <= n,
            Err(e) => e == StoreError::CorruptData && p_jesc(t@, i as int) is None,
        },
{
    if i >= n {
        return Err(StoreError::CorruptData);
    }
    let c = t.get_char(i);
    if c == '"' {
        Ok(('"', i + 1))
    } else if c == '\\' {
        Ok(('\\', i + 1))
    } else if c == '/' {
        Ok(('/', i + 1))
    } else if c == 'n' {
        Ok(('\n', i + 1))
    } else if c == 'r' {
        Ok(('\r', i + 1))
    } else if c == 't' {
        Ok(('\t', i + 1))
    } else if c == 'b' {
        Ok(('\u{0008}', i + 1))
    } else if c == 'f' {
        Ok(('\u{000C}', i + 1))
    } else if c == 'u' {
        if n - i > 4 {
            proof {
                assert(i + 4 < n);
            }
            let h1 = hex_val_of(t.get_char(i + 1));
            let h2 = hex_val_of(t.get_char(i + 2));
            let h3 = hex_val_of(t.get_char(i + 3));
            let h4 = hex_val_of(t.get_char(i + 4));
            if h1 >= 0 && h2 >= 0 && h3 >= 0 && h4 >= 0 {
                let v: u32 = ((h1 as u32 * 16 + h2 as u32) * 16 + h3 as u32) * 16 + h4 as u32;
                if v < 0xD800 || (0xE000 <= v && v <= 0x10FFFF) {
                    match char_from_u32(v) {
                        Some(c2) => {
                            proof {
                                vstd::utf8::char_u32_cast(c2, v);
                            }
                            Ok((c2, i + 5))
                        },
                        None => {
                            proof {
                                assert(false);
                            }
                            Err(StoreError::CorruptData)
                        },
                    }
                } else {
                    Err(StoreError::CorruptData)
                }
            } else {
                Err(StoreError::CorruptData)
            }
        } else {
            Err(StoreError::CorruptData)
        }
    } else {
        Err(StoreError::CorruptData)
    }
}

fn e_parse_jstr_body(t: &str, i: usize, n: usize) -> (r: Result<(String, usize), StoreError>)
    requires
        n == t@.len(),
        i <= n,
    ensures
        match r {
            Ok(p) => p_jstr_body(t@, i as int) == Some((p.0@, p.1 as int)) && i < p.1 <= n,
            Err(e) => e == StoreError::CorruptData && p_jstr_body(t@, i as int) is None,
        },
    decreases n - i,
{
    if i >= n {
        return Err(StoreError::CorruptData);
    }
    let c = t.get_char(i);
    if c == '"' {
        return Ok((String::new(), i + 1));
    }
    if c == '\\' {
        match e_parse_jesc(t, i + 1, n) {
            Err(e) => Err(e),
            Ok(pe) => {
                let (c2, j) = pe;
                match e_parse_jstr_body(t, j, n) {
                    Err(e) => Err(e),
                    Ok(pb) => {
                        let (s, k) = pb;
                        let mut out = String::new();
                        push_char(&mut out, c2);
                        out.append(s.as_str());
                        proof {
                            assert(out@ =~= seq![c2] + s@);
                        }
                        Ok((out, k))
                    },
                }
            },
        }
    } else if (c as u32) < 0x20 {
        Err(StoreError::CorruptData)
    } else {
        match e_parse_jstr_body(t, i + 1, n) {
            Err(e) => Err(e),
            Ok(pb) => {
                let (s, k) = pb;
                let mut out = String::new();
                push_char(&mut out, c);
                out.append(s.as_str());
                proof {
                    assert(out@ =~= seq![c] + s@);
                }
                Ok((out, k))
            },
        }
    }
}

fn e_parse_jstring(t: &str, i: usize, n: usize) -> (r: Result<(String, usize), StoreError>)
    requires
        n == t@.len(),
        i <= n,
    ensures
        match r {
            Ok(p) => p_jstring(t@, i as int) == Some((p.0@, p.1 as int)) && i < p.1 <= n,
            Err(e) => e == StoreError::CorruptData && p_jstring(t@, i as int) is None,
        },
{
    if i < n && t.get_char(i) == '"' {
        e_parse_jstr_body(t, i + 1, n)
    } else {
        Err(StoreError::CorruptData)
    }
}

fn e_parse_pair_e(t: &str, i: usize, n: usize) -> (r: Result<(Entry, usize), StoreError>)
    requires
        n == t@.len(),
        i <= n,
    ensures
        match r {
            Ok(p) => p_pair_e(t@, i as int) == Some(((p.0.key@, p.0.value@), p.1 as int)) && i
                < p.1 <= n,
            Err(e) => e == StoreError::CorruptData && p_pair_e(t@, i as int) is None,
        },
{
    let a = e_skip_ws(t, i, n);
    let (k, b) = match e_parse_jstring(t, a, n) {
        Ok(p) => p,
        Err(e) => {
            return Err(e);
        },
    };
    let c = e_skip_ws(t, b, n);
    if !(c < n && t.get_char(c) == ':') {
        return Err(StoreError::CorruptData);
    }
    let d = e_skip_ws(t, c + 1, n);
    let (v, e_end) = match e_parse_jstring(t, d, n) {
        Ok(p) => p,
        Err(e) => {
            return Err(e);
        },
    };
    Ok((Entry { key: k, value: v }, e_end))
}

fn e_parse_entry_tail(t: &str, i: usize, n: usize) -> (r: Result<
    (Vec<Entry>, usize),
    StoreError,
>)
    requires
        n == t@.len(),
        i <= n,
    ensures
        match r {
            Ok(p) => (p_entry_tail(t@, i as int) matches Some(pr) && entries_match_raw(
                p.0@,
                pr.0,
            ) && pr.1 == p.1 as int) && i < p.1 <= n,
            Err(e) => e == StoreError::CorruptData && p_entry_tail(t@, i as int) is None,
        },
    decreases n - i,
{
    let a = e_skip_ws(t, i, n);
    if a < n && t.get_char(a) == '}' {
        let v: Vec<Entry> = Vec::new();
        proof {
            let pr = p_entry_tail(t@, i as int);
            assert(pr == Some((Seq::<(Seq<char>, Seq<char>)>::empty(), a + 1 as int)));
        }
        return Ok((v, a + 1));
    }
    if !(a < n && t.get_char(a) == ',') {
        return Err(StoreError::CorruptData);
    }
    match e_parse_pair_e(t, a + 1, n) {
        Err(e) => Err(e),
        Ok(pp) => {
            let (entry, j) = pp;
            match e_parse_entry_tail(t, j, n) {
                Err(e) => Err(e),
                Ok(pt) => {
                    let (mut v, k) = pt;
                    let ghost v0 = v@;
                    v.insert(0, entry);
                    proof {
                        assert(v@ =~= seq![entry] + v0);
                    }
                    Ok((v, k))
                },
            }
        },
    }
}

fn e_parse_obj(t: &str, i: usize, n: usize) -> (r: Result<(Vec<Entry>, usize), StoreError>)
    requires
        n == t@.len(),
        i <= n,
    ensures
        match r {
            Ok(p) => (p_obj(t@, i as int) matches Some(pr) && entries_match_raw(p.0@, pr.0)
                && pr.1 == p.1 as int) && i < p.1 <= n,
            Err(e) => e == StoreError::CorruptData && p_obj(t@, i as int) is None,
        },
{
    if !(i < n && t.get_char(i) == '{') {
        return Err(StoreError::CorruptData);
    }
    let a = e_skip_ws(t, i + 1, n);
    if a < n && t.get_char(a) == '}' {
        let v: Vec<Entry> = Vec::new();
        return Ok((v, a + 1));
    }
    match e_parse_pair_e(t, i + 1, n) {
        Err(e) => Err(e),
        Ok(pp) => {
            let (entry, j) = pp;
            match e_parse_entry_tail(t, j, n) {
                Err(e) => Err(e),
                Ok(pt) => {
                    let (mut v, k) = pt;
                    let ghost v0 = v@;
                    v.insert(0, entry);
                    proof {
                        assert(v@ =~= seq![entry] + v0);
                    }
                    Ok((v, k))
                },
            }
        },
    }
}

fn e_parse_pair_h(t: &str, i: usize, n: usize) -> (r: Result<(History, usize), StoreError>)
    requires
        n == t@.len(),
        i <= n,
    ensures
        match r {
            Ok(p) => (p_pair_h(t@, i as int) matches Some(pr) && pr.0.0 == p.0.name@
                && entries_match_raw(p.0.entries@, pr.0.1) && pr.1 == p.1 as int) && i < p.1
                <= n,
            Err(e) => e == StoreError::CorruptData && p_pair_h(t@, i as int) is None,
        },
{
    let a = e_skip_ws(t, i, n);
    let (nm, b) = match e_parse_jstring(t, a, n) {
        Ok(p) => p,
        Err(e) => {
            return Err(e);
        },
    };
    let c = e_skip_ws(t, b, n);
    if !(c < n && t.get_char(c) == ':') {
        return Err(StoreError::CorruptData);
    }
    let d = e_skip_ws(t, c + 1, n);
    match e_parse_obj(t, d, n) {
        Err(e) => Err(e),
        Ok(po) => {
            let (es, e_end) = po;
            Ok((History { name: nm, entries: es }, e_end))
        },
    }
}

fn e_parse_hist_tail(t: &str, i: usize, n: usize) -> (r: Result<
    (Vec<History>, usize),
    StoreError,
>)
    requires
        n == t@.len(),
        i <= n,
    ensures
        match r {
            Ok(p) => (p_hist_tail(t@, i as int) matches Some(pr) && hists_match_raw(p.0@, pr.0)
                && pr.1 == p.1 as int) && i < p.1 <= n,
            Err(e) => e == StoreError::CorruptData && p_hist_tail(t@, i as int) is None,
        },
    decreases n - i,
{
    let a = e_skip_ws(t, i, n);
    if a < n && t.get_char(a) == '}' {
        let v: Vec<History> = Vec::new();
        return Ok((v, a + 1));
    }
    if !(a < n && t.get_char(a) == ',') {
        return Err(StoreError::CorruptData);
    }
    match e_parse_pair_h(t, a + 1, n) {
        Err(e) => Err(e),
        Ok(pp) => {
            let (h, j) = pp;
            match e_parse_hist_tail(t, j, n) {
                Err(e) => Err(e),
                Ok(pt) => {
                    let (mut v, k) = pt;
                    let ghost v0 = v@;
                    v.insert(0, h);
                    proof {
                        assert(v@ =~= seq![h] + v0);
                    }
                    Ok((v, k))
                },
            }
        },
    }
}

} // verus!

verus! {

fn check_unique_names(hs: &Vec<History>) -> (b: bool)
    ensures
        b == unique_names(hs@),
{
    let n = hs.len();
    if n <= 1 {
        return true;
    }
    let mut i: usize = 1;
    while i < n
        invariant
            n == hs@.len(),
            1 <= i <= n,
            forall|a: int, b: int|
                0 <= a < b < i ==> (#[trigger] hs@[a]).name@ != (#[trigger] hs@[b]).name@,
        decreases n - i,
    {
        let mut j: usize = 0;
        while j < i
            invariant
                n == hs@.len(),
                i < n,
                j <= i,
                forall|a: int, b: int|
                    0 <= a < b < i ==> (#[trigger] hs@[a]).name@ != (#[trigger] hs@[b]).name@,
                forall|a: int| 0 <= a < j ==> (#[trigger] hs@[a]).name@ != hs@[i as int].name@,
            decreases i - j,
        {
            if str_eq(hs[j].name.as_str(), hs[i].name.as_str()) {
                proof {
                    assert(hs@[j as int].name@ == hs@[i as int].name@);
                    assert(!unique_names(hs@));
                }
                return false;
            }
            j = j + 1;
        }
        proof {
            assert forall|a: int, b: int| 0 <= a < b < i + 1 implies (#[trigger] hs@[a]).name@
                != (#[trigger] hs@[b]).name@ by {
                if b < i {
                } else {
                    assert(b == i);
                }
            }
        }
        i = i + 1;
    }
    true
}

fn check_unique_keys(es: &Vec<Entry>) -> (b: bool)
    ensures
        b == unique_keys(es@),
{
    let n = es.len();
    if n <= 1 {
        return true;
    }
    let mut i: usize = 1;
    while i < n
        invariant
            n == es@.len(),
            1 <= i <= n,
            forall|a: int, b: int|
                0 <= a < b < i ==> (#[trigger] es@[a]).key@ != (#[trigger] es@[b]).key@,
        decreases n - i,
    {
        let mut j: usize = 0;
        while j < i
            invariant
                n == es@.len(),
                i < n,
                j <= i,
                forall|a: int, b: int|
                    0 <= a < b < i ==> (#[trigger] es@[a]).key@ != (#[trigger] es@[b]).key@,
                forall|a: int| 0 <= a < j ==> (#[trigger] es@[a]).key@ != es@[i as int].key@,
            decreases i - j,
        {
            if str_eq(es[j].key.as_str(), es[i].key.as_str()) {
                proof {
                    assert(es@[j as int].key@ == es@[i as int].key@);
                    assert(!unique_keys(es@));
                }
                return false;
            }
            j = j + 1;
        }
        proof {
            assert forall|a: int, b: int| 0 <= a < b < i + 1 implies (#[trigger] es@[a]).key@
                != (#[trigger] es@[b]).key@ by {
                if b < i {
                } else {
                    assert(b == i);
                }
            }
        }
        i = i + 1;
    }
    true
}

fn check_store_wf(hs: &Vec<History>) -> (b: bool)
    ensures
        b == (unique_names(hs@) && forall|i: int|
            0 <= i < hs@.len() ==> (#[trigger] hs@[i]).wf()),
{
    if !check_unique_names(hs) {
        return false;
    }
    let n = hs.len();
    let mut i: usize = 0;
    while i < n
        invariant
            n == hs@.len(),
            i <= n,
            unique_names(hs@),
            forall|a: int| 0 <= a < i ==> (#[trigger] hs@[a]).wf(),
        decreases n - i,
    {
        if !check_unique_keys(&hs[i].entries) {
            return false;
        }
        i = i + 1;
    }
    true
}

/// Matching representations have the same uniqueness status.
pub proof fn lemma_match_raw_wf(
    hs: Seq<History>,
    raw: Seq<(Seq<char>, Seq<(Seq<char>, Seq<char>)>)>,
)
    requires
        hists_match_raw(hs, raw),
    ensures
        (unique_names(hs) && (forall|i: int| 0 <= i < hs.len() ==> (#[trigger] hs[i]).wf()))
            <==> raw_ok(raw),
{
    assert(forall|i: int|
        0 <= i < raw.len() ==> (#[trigger] hs[i]).name@ == raw[i].0 && entries_match_raw(
            hs[i].entries@,
            raw[i].1,
        ));
    if raw_ok(raw) {
        assert forall|a: int, b: int| 0 <= a < b < hs.len() implies (#[trigger] hs[a]).name@
            != (#[trigger] hs[b]).name@ by {
            assert(raw[a].0 != raw[b].0);
        }
        assert forall|i: int| 0 <= i < hs.len() implies (#[trigger] hs[i]).wf() by {
            let es = hs[i].entries@;
            let pr = raw[i].1;
            assert(raw_entries_unique(pr));
            assert forall|a: int, b: int| 0 <= a < b < es.len() implies (#[trigger] es[a]).key@
                != (#[trigger] es[b]).key@ by {
                assert(es[a].key@ == pr[a].0 && es[b].key@ == pr[b].0);
                assert(pr[a].0 != pr[b].0);
            }
        }
    }
    if unique_names(hs) && (forall|i: int| 0 <= i < hs.len() ==> (#[trigger] hs[i]).wf()) {
        assert forall|a: int, b: int| 0 <= a < b < raw.len() implies (#[trigger] raw[a]).0
            != (#[trigger] raw[b]).0 by {
            assert(hs[a].name@ != hs[b].name@);
        }
        assert forall|i: int| 0 <= i < raw.len() implies raw_entries_unique(
            (#[trigger] raw[i]).1,
        ) by {
            let es = hs[i].entries@;
            let pr = raw[i].1;
            assert(hs[i].wf());
            assert forall|a: int, b: int| 0 <= a < b < pr.len() implies (#[trigger] pr[a]).0
                != (#[trigger] pr[b]).0 by {
                assert(es[a].key@ == pr[a].0 && es[b].key@ == pr[b].0);
                assert(es[a].key@ != es[b].key@);
            }
        }
    }
}

/// Parse the canonical JSON document into a store.  `CorruptData` when
/// the text is not the expected two-level shape, or when a history name
/// or a key is duplicated.
pub fn store_from_json(text: &str) -> (r: Result<Store, StoreError>)
    ensures
        match r {
            Ok(s) => s.wf() && (p_doc(text@) matches Some(raw) && hists_match_raw(
                s.histories@,
                raw,
            ) && raw_ok(raw)),
            Err(e) => e == StoreError::CorruptData && !(p_doc(text@) matches Some(raw)
                && raw_ok(raw)),
        },
{
    let n = text.unicode_len();
    let i0 = e_skip_ws(text, 0, n);
    if !(i0 < n && text.get_char(i0) == '{') {
        return Err(StoreError::CorruptData);
    }
    let a = e_skip_ws(text, i0 + 1, n);
    if a < n && text.get_char(a) == '}' {
        let k = e_skip_ws(text, a + 1, n);
        if k == n {
            let s = Store { histories: Vec::new() };
            proof {
                assert(p_doc(text@) == Some(
                    Seq::<(Seq<char>, Seq<(Seq<char>, Seq<char>)>)>::empty(),
                ));
                assert(hists_match_raw(
                    s.histories@,
                    Seq::<(Seq<char>, Seq<(Seq<char>, Seq<char>)>)>::empty(),
                ));
            }
            return Ok(s);
        } else {
            return Err(StoreError::CorruptData);
        }
    }
    match e_parse_pair_h(text, i0 + 1, n) {
        Err(e) => Err(e),
        Ok(pp) => {
            let (h, j) = pp;
            match e_parse_hist_tail(text, j, n) {
                Err(e) => Err(e),
                Ok(pt) => {
                    let (mut v, k) = pt;
                    let k2 = e_skip_ws(text, k, n);
                    if k2 != n {
                        return Err(StoreError::CorruptData);
                    }
                    let ghost v0 = v@;
                    v.insert(0, h);
                    proof {
                        assert(v@ =~= seq![h] + v0);
                    }
                    if check_store_wf(&v) {
                        let s = Store { histories: v };
                        proof {
                            let raw = p_doc(text@).unwrap();
                            assert(hists_match_raw(s.histories@, raw));
                            lemma_match_raw_wf(s.histories@, raw);
                        }
                        Ok(s)
                    } else {
                        proof {
                            let raw = p_doc(text@).unwrap();
                            assert(hists_match_raw(v@, raw));
                            lemma_match_raw_wf(v@, raw);
                        }
                        Err(StoreError::CorruptData)
                    }
                },
            }
        },
    }
}

} // verus!

verus! {

// ---------------------------------------------------------------------
// Round trip: parsing an emitted document yields the emitted histories.
// ---------------------------------------------------------------------
pub proof fn lemma_skip_ws_to(t: Seq<char>, i: int, j: int)
    requires
        0 <= i <= j <= t.len(),
        forall|k: int| i <= k < j ==> is_ws(#[trigger] t[k]),
        j == t.len() || !is_ws(t[j]),
    ensures
        skip_ws(t, i) == j,
    decreases j - i,
{
    if i < j {
        assert(is_ws(t[i]));
        lemma_skip_ws_to(t, i + 1, j);
    }
}

pub proof fn lemma_p_jstr_body_emit(t: Seq<char>, i: int, s: Seq<char>, j: int)
    requires
        0 <= i <= j <= t.len(),
        t.subrange(i, j) == jesc(s) + seq!['"'],
    ensures
        p_jstr_body(t, i) == Some((s, j)),
    decreases s.len(),
{
    if s.len() == 0 {
        assert(jesc(s) == Seq::<char>::empty());
        assert(t.subrange(i, j) =~= seq!['"']);
        assert(j == i + 1);
        assert(t.subrange(i, j)[0] == t[i]);
        assert(t[i] == '"');
        assert(s =~= Seq::<char>::empty());
    } else {
        let c = s[0];
        let s1 = s.drop_first();
        assert(jesc(s) == jesc_char(c) + jesc(s1));
        let rest = jesc(s1) + seq!['"'];
        let w = jesc_char(c);
        assert(t.subrange(i, j) =~= w + rest);
        crate::csv_codec::lemma_subrange_split(t, i, j, w, rest);
        let m = i + w.len();
        assert(t.subrange(m, j) == rest);
        assert(rest.len() >= 1);
        assert(m < j);
        if c == '"' || c == '\\' || c == '\n' || c == '\r' || c == '\t' {
            assert(w.len() == 2);
            assert(t.subrange(i, i + 2)[0] == t[i]);
            assert(t.subrange(i, i + 2)[1] == t[i + 1]);
            assert(t[i] == '\\');
            if c == '"' {
                assert(t[i + 1] == '"');
            } else if c == '\\' {
                assert(t[i + 1] == '\\');
            } else if c == '\n' {
                assert(t[i + 1] == 'n');
            } else if c == '\r' {
                assert(t[i + 1] == 'r');
            } else {
                assert(t[i + 1] == 't');
            }
            assert(p_jesc(t, i + 1) == Some((c, i + 2)));
            lemma_p_jstr_body_emit(t, i + 2, s1, j);
            assert(seq![c] + s1 =~= s);
        } else if (c as u32) < 0x20 {
            let v = (c as u32) as int;
            let hi = v / 16;
            let lo = v % 16;
            assert(w.len() == 6);
            assert(t.subrange(i, i + 6)[0] == t[i]);
            assert(t.subrange(i, i + 6)[1] == t[i + 1]);
            assert(t.subrange(i, i + 6)[2] == t[i + 2]);
            assert(t.subrange(i, i + 6)[3] == t[i + 3]);
            assert(t.subrange(i, i + 6)[4] == t[i + 4]);
            assert(t.subrange(i, i + 6)[5] == t[i + 5]);
            assert(t[i] == '\\');
            assert(t[i + 1] == 'u');
            assert(t[i + 2] == '0');
            assert(t[i + 3] == '0');
            assert(t[i + 4] == hex_char(hi));
            assert(t[i + 5] == hex_char(lo));
            assert(0 <= hi < 16 && 0 <= lo < 16);
            assert(hex_val(hex_char(hi)) == hi);
            assert(hex_val(hex_char(lo)) == lo);
            assert(hex_val('0') == 0);
            // the escape sits inside the range, so the bound holds
            assert(i + 1 + 4 < t.len());
            let vparsed = ((hex_val(t[i + 2]) * 16 + hex_val(t[i + 3])) * 16 + hex_val(
                t[i + 4],
            )) * 16 + hex_val(t[i + 5]);
            assert(vparsed == 16 * hi + lo);
            assert(16 * (v / 16) + v % 16 == v);
            assert(vparsed == v);
            assert(vparsed < 0xD800);
            vstd::utf8::char_u32_cast(c, c as u32);
            assert((vparsed as u32) == (c as u32));
            assert(((vparsed as u32) as char) == c);
            assert(p_jesc(t, i + 1) == Some((c, i + 6)));
            lemma_p_jstr_body_emit(t, i + 6, s1, j);
            assert(seq![c] + s1 =~= s);
        } else {
            assert(w =~= seq![c]);
            assert(t.subrange(i, i + 1)[0] == t[i]);
            assert(t[i] == c);
            lemma_p_jstr_body_emit(t, i + 1, s1, j);
            assert(seq![c] + s1 =~= s);
        }
    }
}

pub proof fn lemma_p_jstring_emit(t: Seq<char>, i: int, s: Seq<char>, j: int)
    requires
        0 <= i < j <= t.len(),
        t.subrange(i, j) == jquote(s),
    ensures
        p_jstring(t, i) == Some((s, j)),
{
    let rest = jesc(s) + seq!['"'];
    assert(t.subrange(i, j) =~= seq!['"'] + rest);
    crate::csv_codec::lemma_subrange_split(t, i, j, seq!['"'], rest);
    assert(t.subrange(i, i + 1)[0] == t[i]);
    assert(t[i] == '"');
    lemma_p_jstr_body_emit(t, i + 1, s, j);
}

pub proof fn lemma_p_pair_e_emit(t: Seq<char>, i: int, e: Entry, j: int)
    requires
        0 <= i <= j <= t.len(),
        t.subrange(i, j) == json_entry(e),
    ensures
        p_pair_e(t, i) == Some(((e.key@, e.value@), j)),
{
    let w5 = seq!['\n', ' ', ' ', ' ', ' '];
    let q1 = jquote(e.key@);
    let cs = seq![':', ' '];
    let q2 = jquote(e.value@);
    let r1 = q1 + (cs + q2);
    assert(t.subrange(i, j) =~= w5 + r1);
    crate::csv_codec::lemma_subrange_split(t, i, j, w5, r1);
    let m1 = i + 5;
    assert(t.subrange(i, m1)[0] == t[i]);
    assert(t.subrange(i, m1)[1] == t[i + 1]);
    assert(t.subrange(i, m1)[2] == t[i + 2]);
    assert(t.subrange(i, m1)[3] == t[i + 3]);
    assert(t.subrange(i, m1)[4] == t[i + 4]);
    crate::csv_codec::lemma_subrange_split(t, m1, j, q1, cs + q2);
    let b = m1 + q1.len();
    assert(t.subrange(m1, b)[0] == t[m1]);
    assert(t[m1] == '"');
    assert forall|k: int| i <= k < m1 implies is_ws(#[trigger] t[k]) by {
        if k == i {
        } else if k == i + 1 {
        } else if k == i + 2 {
        } else if k == i + 3 {
        } else {
            assert(k == i + 4);
        }
    }
    lemma_skip_ws_to(t, i, m1);
    lemma_p_jstring_emit(t, m1, e.key@, b);
    crate::csv_codec::lemma_subrange_split(t, b, j, cs, q2);
    assert(t.subrange(b, b + 2)[0] == t[b]);
    assert(t.subrange(b, b + 2)[1] == t[b + 1]);
    assert(t[b] == ':');
    assert(t[b + 1] == ' ');
    lemma_skip_ws_to(t, b, b);
    let d = b + 2;
    assert(t.subrange(d, j)[0] == t[d]);
    assert(t[d] == '"');
    assert forall|k: int| b + 1 <= k < d implies is_ws(#[trigger] t[k]) by {
        assert(k == b + 1);
    }
    lemma_skip_ws_to(t, b + 1, d);
    lemma_p_jstring_emit(t, d, e.value@, j);
}

pub proof fn lemma_p_entry_tail_emit(t: Seq<char>, i: int, rest: Seq<Entry>, j: int)
    requires
        0 <= i <= j <= t.len(),
        t.subrange(i, j) == json_entries_tail(rest) + seq!['\n', ' ', ' ', '}'],
    ensures
        p_entry_tail(t, i) == Some((raw_entries(rest), j)),
    decreases rest.len(),
{
    if rest.len() == 0 {
        assert(json_entries_tail(rest) == Seq::<char>::empty());
        assert(t.subrange(i, j) =~= seq!['\n', ' ', ' ', '}']);
        assert(j == i + 4);
        assert(t.subrange(i, j)[0] == t[i]);
        assert(t.subrange(i, j)[1] == t[i + 1]);
        assert(t.subrange(i, j)[2] == t[i + 2]);
        assert(t.subrange(i, j)[3] == t[i + 3]);
        assert(t[i + 3] == '}');
        assert forall|k: int| i <= k < i + 3 implies is_ws(#[trigger] t[k]) by {
            if k == i {
            } else if k == i + 1 {
            } else {
                assert(k == i + 2);
            }
        }
        lemma_skip_ws_to(t, i, i + 3);
        assert(raw_entries(rest) =~= Seq::<(Seq<char>, Seq<char>)>::empty());
    } else {
        let e0 = rest[0];
        let rest1 = rest.drop_first();
        assert(json_entries_tail(rest) == seq![','] + json_entry(e0) + json_entries_tail(rest1));
        let after = json_entry(e0) + (json_entries_tail(rest1) + seq!['\n', ' ', ' ', '}']);
        assert(t.subrange(i, j) =~= seq![','] + after);
        crate::csv_codec::lemma_subrange_split(t, i, j, seq![','], after);
        assert(t.subrange(i, i + 1)[0] == t[i]);
        assert(t[i] == ',');
        lemma_skip_ws_to(t, i, i);
        crate::csv_codec::lemma_subrange_split(
            t,
            i + 1,
            j,
            json_entry(e0),
            json_entries_tail(rest1) + seq!['\n', ' ', ' ', '}'],
        );
        let j1 = i + 1 + json_entry(e0).len();
        lemma_p_pair_e_emit(t, i + 1, e0, j1);
        lemma_p_entry_tail_emit(t, j1, rest1, j);
        assert(seq![(e0.key@, e0.value@)] + raw_entries(rest1) =~= raw_entries(rest));
    }
}

pub proof fn lemma_p_obj_emit(t: Seq<char>, i: int, es: Seq<Entry>, j: int)
    requires
        0 <= i <= j <= t.len(),
        t.subrange(i, j) == json_obj(es),
    ensures
        p_obj(t, i) == Some((raw_entries(es), j)),
{
    if es.len() == 0 {
        assert(t.subrange(i, j) =~= seq!['{', '}']);
        assert(j == i + 2);
        assert(t.subrange(i, j)[0] == t[i]);
        assert(t.subrange(i, j)[1] == t[i + 1]);
        assert(t[i] == '{' && t[i + 1] == '}');
        lemma_skip_ws_to(t, i + 1, i + 1);
        assert(raw_entries(es) =~= Seq::<(Seq<char>, Seq<char>)>::empty());
    } else {
        let e0 = es[0];
        let es1 = es.drop_first();
        let close = seq!['\n', ' ', ' ', '}'];
        assert(json_entries(es) == json_entry(e0) + json_entries_tail(es1));
        let body = json_entry(e0) + (json_entries_tail(es1) + close);
        assert(t.subrange(i, j) =~= seq!['{'] + body);
        crate::csv_codec::lemma_subrange_split(t, i, j, seq!['{'], body);
        assert(t.subrange(i, i + 1)[0] == t[i]);
        assert(t[i] == '{');
        crate::csv_codec::lemma_subrange_split(
            t,
            i + 1,
            j,
            json_entry(e0),
            json_entries_tail(es1) + close,
        );
        let j1 = i + 1 + json_entry(e0).len();
        let w5 = seq!['\n', ' ', ' ', ' ', ' '];
        let entry_rest = jquote(e0.key@) + (seq![':', ' '] + jquote(e0.value@));
        assert(t.subrange(i + 1, j1) =~= w5 + entry_rest);
        crate::csv_codec::lemma_subrange_split(t, i + 1, j1, w5, entry_rest);
        let m1 = i + 6;
        assert(t.subrange(i + 1, m1)[0] == t[i + 1]);
        assert(t.subrange(i + 1, m1)[1] == t[i + 2]);
        assert(t.subrange(i + 1, m1)[2] == t[i + 3]);
        assert(t.subrange(i + 1, m1)[3] == t[i + 4]);
        assert(t.subrange(i + 1, m1)[4] == t[i + 5]);
        assert(t.subrange(m1, j1)[0] == t[m1]);
        assert(t[m1] == '"');
        assert forall|k: int| i + 1 <= k < m1 implies is_ws(#[trigger] t[k]) by {
            if k == i + 1 {
            } else if k == i + 2 {
            } else if k == i + 3 {
            } else if k == i + 4 {
            } else {
                assert(k == i + 5);
            }
        }
        lemma_skip_ws_to(t, i + 1, m1);
        assert(skip_ws(t, i + 1) == m1 && t[m1] != '}');
        lemma_p_pair_e_emit(t, i + 1, e0, j1);
        lemma_p_entry_tail_emit(t, j1, es1, j);
        assert(seq![(e0.key@, e0.value@)] + raw_entries(es1) =~= raw_entries(es));
    }
}

pub proof fn lemma_p_pair_h_emit(t: Seq<char>, i: int, h: History, j: int)
    requires
        0 <= i <= j <= t.len(),
        t.subrange(i, j) == json_hist(h),
    ensures
        p_pair_h(t, i) == Some(((h.name@, raw_entries(h.entries@)), j)),
{
    let w3 = seq!['\n', ' ', ' '];
    let q1 = jquote(h.name@);
    let cs = seq![':', ' '];
    let ob = json_obj(h.entries@);
    let r1 = q1 + (cs + ob);
    assert(t.subrange(i, j) =~= w3 + r1);
    crate::csv_codec::lemma_subrange_split(t, i, j, w3, r1);
    let m1 = i + 3;
    assert(t.subrange(i, m1)[0] == t[i]);
    assert(t.subrange(i, m1)[1] == t[i + 1]);
    assert(t.subrange(i, m1)[2] == t[i + 2]);
    crate::csv_codec::lemma_subrange_split(t, m1, j, q1, cs + ob);
    let b = m1 + q1.len();
    assert(t.subrange(m1, b)[0] == t[m1]);
    assert(t[m1] == '"');
    assert forall|k: int| i <= k < m1 implies is_ws(#[trigger] t[k]) by {
        if k == i {
        } else if k == i + 1 {
        } else {
            assert(k == i + 2);
        }
    }
    lemma_skip_ws_to(t, i, m1);
    lemma_p_jstring_emit(t, m1, h.name@, b);
    crate::csv_codec::lemma_subrange_split(t, b, j, cs, ob);
    assert(t.subrange(b, b + 2)[0] == t[b]);
    assert(t.subrange(b, b + 2)[1] == t[b + 1]);
    assert(t[b] == ':');
    assert(t[b + 1] == ' ');
    lemma_skip_ws_to(t, b, b);
    let d = b + 2;
    assert(ob.len() >= 2);
    assert(t.subrange(d, j)[0] == t[d]);
    assert(t[d] == '{');
    assert forall|k: int| b + 1 <= k < d implies is_ws(#[trigger] t[k]) by {
        assert(k == b + 1);
    }
    lemma_skip_ws_to(t, b + 1, d);
    lemma_p_obj_emit(t, d, h.entries@, j);
}

pub proof fn lemma_p_hist_tail_emit(t: Seq<char>, i: int, rest: Seq<History>, j: int)
    requires
        0 <= i <= j <= t.len(),
        t.subrange(i, j) == json_hists_tail(rest) + seq!['\n', '}'],
    ensures
        p_hist_tail(t, i) == Some((raw_of(rest), j)),
    decreases rest.len(),
{
    if rest.len() == 0 {
        assert(json_hists_tail(rest) == Seq::<char>::empty());
        assert(t.subrange(i, j) =~= seq!['\n', '}']);
        assert(j == i + 2);
        assert(t.subrange(i, j)[0] == t[i]);
        assert(t.subrange(i, j)[1] == t[i + 1]);
        assert(t[i + 1] == '}');
        assert forall|k: int| i <= k < i + 1 implies is_ws(#[trigger] t[k]) by {
            assert(k == i);
        }
        lemma_skip_ws_to(t, i, i + 1);
        assert(raw_of(rest) =~= Seq::<(Seq<char>, Seq<(Seq<char>, Seq<char>)>)>::empty());
    } else {
        let h0 = rest[0];
        let rest1 = rest.drop_first();
        assert(json_hists_tail(rest) == seq![','] + json_hist(h0) + json_hists_tail(rest1));
        let after = json_hist(h0) + (json_hists_tail(rest1) + seq!['\n', '}']);
        assert(t.subrange(i, j) =~= seq![','] + after);
        crate::csv_codec::lemma_subrange_split(t, i, j, seq![','], after);
        assert(t.subrange(i, i + 1)[0] == t[i]);
        assert(t[i] == ',');
        lemma_skip_ws_to(t, i, i);
        crate::csv_codec::lemma_subrange_split(
            t,
            i + 1,
            j,
            json_hist(h0),
            json_hists_tail(rest1) + seq!['\n', '}'],
        );
        let j1 = i + 1 + json_hist(h0).len();
        lemma_p_pair_h_emit(t, i + 1, h0, j1);
        lemma_p_hist_tail_emit(t, j1, rest1, j);
        assert(seq![(h0.name@, raw_entries(h0.entries@))] + raw_of(rest1) =~= raw_of(rest));
    }
}

proof fn lemma_doc_split(hs: Seq<History>)
    requires
        hs.len() > 0,
    ensures
        ({
            let t = json_doc(hs);
            let j1: int = 1 + json_hist(hs[0]).len() as int;
            &&& 1 <= j1 <= t.len()
            &&& t[0] == '{'
            &&& t.subrange(1, j1) == json_hist(hs[0])
            &&& t.subrange(j1, t.len() as int) == json_hists_tail(hs.drop_first()) + seq![
                '\n',
                '}',
            ]
        }),
{
    let t = json_doc(hs);
    let h0 = hs[0];
    let rest = hs.drop_first();
    assert(json_hists(hs) == json_hist(h0) + json_hists_tail(rest));
    let body = json_hist(h0) + (json_hists_tail(rest) + seq!['\n', '}']);
    assert(t =~= seq!['{'] + body);
    assert(t.subrange(0, t.len() as int) =~= t);
    crate::csv_codec::lemma_subrange_split(t, 0, t.len() as int, seq!['{'], body);
    assert(t.subrange(0, 1)[0] == t[0]);
    crate::csv_codec::lemma_subrange_split(
        t,
        1,
        t.len() as int,
        json_hist(h0),
        json_hists_tail(rest) + seq!['\n', '}'],
    );
}

proof fn lemma_doc_ws(hs: Seq<History>)
    requires
        hs.len() > 0,
    ensures
        ({
            let t = json_doc(hs);
            &&& 4 < t.len()
            &&& skip_ws(t, 0) == 0
            &&& skip_ws(t, 1) == 4
            &&& t[4] == '"'
        }),
{
    let t = json_doc(hs);
    let j1: int = 1 + json_hist(hs[0]).len() as int;
    lemma_doc_split(hs);
    lemma_skip_ws_to(t, 0, 0);
    let w3 = seq!['\n', ' ', ' '];
    let hist_rest = jquote(hs[0].name@) + (seq![':', ' '] + json_obj(hs[0].entries@));
    assert(t.subrange(1, j1) =~= w3 + hist_rest);
    crate::csv_codec::lemma_subrange_split(t, 1, j1, w3, hist_rest);
    assert(t.subrange(1, 4)[0] == t[1]);
    assert(t.subrange(1, 4)[1] == t[2]);
    assert(t.subrange(1, 4)[2] == t[3]);
    assert(t.subrange(4, j1)[0] == t[4]);
    assert(t[4] == '"');
    assert forall|k: int| 1 <= k < 4 implies is_ws(#[trigger] t[k]) by {
        if k == 1 {
        } else if k == 2 {
        } else {
            assert(k == 3);
        }
    }
    lemma_skip_ws_to(t, 1, 4);
}

#[verifier::rlimit(100)]
pub proof fn lemma_p_doc_emit(hs: Seq<History>)
    ensures
        p_doc(json_doc(hs)) == Some(raw_of(hs)),
{
    let t = json_doc(hs);
    if hs.len() == 0 {
        assert(t == seq!['{', '}']);
        assert(t.len() == 2 && t[0] == '{' && t[1] == '}');
        lemma_skip_ws_to(t, 0, 0);
        lemma_skip_ws_to(t, 1, 1);
        assert(skip_ws(t, 2) == 2);
        assert(raw_of(hs) =~= Seq::<(Seq<char>, Seq<(Seq<char>, Seq<char>)>)>::empty());
    } else {
        let h0 = hs[0];
        let rest = hs.drop_first();
        let j1: int = 1 + json_hist(h0).len() as int;
        lemma_doc_split(hs);
        lemma_doc_ws(hs);
        assert(skip_ws(t, 1) == 4 && t[4] != '}');
        lemma_p_pair_h_emit(t, 1, h0, j1);
        lemma_p_hist_tail_emit(t, j1, rest, t.len() as int);
        assert(skip_ws(t, t.len() as int) == t.len());
        assert(seq![(h0.name@, raw_entries(h0.entries@))] + raw_of(rest) =~= raw_of(hs));
    }
}

/// Round trip: a well-formed store's saved document parses back to
/// exactly the saved histories, keys and values, in order, and the
/// uniqueness checks accept it.
pub proof fn lemma_json_round_trip(hs: Seq<History>)
    requires
        unique_names(hs),
        forall|i: int| 0 <= i < hs.len() ==> (#[trigger] hs[i]).wf(),
    ensures
        p_doc(json_doc(hs)) == Some(raw_of(hs)),
        raw_ok(raw_of(hs)),
        hists_match_raw(hs, raw_of(hs)),
{
    lemma_p_doc_emit(hs);
    assert forall|i: int| 0 <= i < raw_of(hs).len() implies (#[trigger] hs[i]).name@ == raw_of(
        hs,
    )[i].0 && entries_match_raw(hs[i].entries@, raw_of(hs)[i].1) by {
        assert(raw_of(hs)[i] == (hs[i].name@, raw_entries(hs[i].entries@)));
    }
    assert(hists_match_raw(hs, raw_of(hs)));
    lemma_match_raw_wf(hs, raw_of(hs));
}

} // verus!

verus! {

pub proof fn lemma_entries_same_map(es1: Seq<Entry>, es2: Seq<Entry>)
    requires
        es1.len() == es2.len(),
        forall|i: int|
            0 <= i < es1.len() ==> (#[trigger] es2[i]).key@ == es1[i].key@ && es2[i].value@
                == es1[i].value@,
        unique_keys(es1),
    ensures
        crate::store::entries_map(es2) == crate::store::entries_map(es1),
{
    assert forall|a: int, b: int| 0 <= a < b < es2.len() implies (#[trigger] es2[a]).key@
        != (#[trigger] es2[b]).key@ by {
        assert(es1[a].key@ != es1[b].key@);
    }
    assert forall|k: Seq<char>| #[trigger] crate::store::entries_map(es2).contains_key(
        k,
    ) implies crate::store::entries_map(es1).contains_key(k) && crate::store::entries_map(
        es2,
    )[k] == crate::store::entries_map(es1)[k] by {
        let i = crate::store::key_idx(es2, k);
        assert(0 <= i < es2.len() && es2[i].key@ == k);
        crate::store::lemma_key_at(es2, i);
        crate::store::lemma_key_at(es1, i);
    }
    assert forall|k: Seq<char>| #[trigger] crate::store::entries_map(es1).contains_key(
        k,
    ) implies crate::store::entries_map(es2).contains_key(k) by {
        let i = crate::store::key_idx(es1, k);
        assert(0 <= i < es1.len() && es1[i].key@ == k);
        crate::store::lemma_key_at(es2, i);
    }
    assert(crate::store::entries_map(es2) =~= crate::store::entries_map(es1));
}

/// Loading a saved well-formed store restores its abstract two-level
/// mapping: any store whose representation matches the parsed document
/// denotes the same mapping as the store that was saved.
pub proof fn lemma_json_round_trip_map(hs: Seq<History>, hs2: Seq<History>)
    requires
        unique_names(hs),
        forall|i: int| 0 <= i < hs.len() ==> (#[trigger] hs[i]).wf(),
        hists_match_raw(hs2, raw_of(hs)),
    ensures
        crate::store::histories_map(hs2) == crate::store::histories_map(hs),
{
    assert forall|i: int| 0 <= i < hs.len() implies (#[trigger] hs2[i]).name@ == hs[i].name@
        && entries_match_raw(hs2[i].entries@, raw_entries(hs[i].entries@)) by {
        assert(raw_of(hs)[i] == (hs[i].name@, raw_entries(hs[i].entries@)));
    }
    assert forall|a: int, b: int| 0 <= a < b < hs2.len() implies (#[trigger] hs2[a]).name@
        != (#[trigger] hs2[b]).name@ by {
        assert(hs[a].name@ != hs[b].name@);
    }
    assert forall|n: Seq<char>| #[trigger] crate::store::histories_map(hs2).contains_key(
        n,
    ) implies crate::store::histories_map(hs).contains_key(n) && crate::store::histories_map(
        hs2,
    )[n] == crate::store::histories_map(hs)[n] by {
        let i = crate::store::name_idx(hs2, n);
        assert(0 <= i < hs2.len() && hs2[i].name@ == n);
        crate::store::lemma_name_at(hs2, i);
        crate::store::lemma_name_at(hs, i);
        let es1 = hs[i].entries@;
        let es2 = hs2[i].entries@;
        assert(entries_match_raw(es2, raw_entries(es1)));
        assert forall|j: int| 0 <= j < es1.len() implies (#[trigger] es2[j]).key@ == es1[j].key@
            && es2[j].value@ == es1[j].value@ by {
            assert(raw_entries(es1)[j] == (es1[j].key@, es1[j].value@));
        }
        lemma_entries_same_map(es1, es2);
    }
    assert forall|n: Seq<char>| #[trigger] crate::store::histories_map(hs).contains_key(
        n,
    ) implies crate::store::histories_map(hs2).contains_key(n) by {
        let i = crate::store::name_idx(hs, n);
        assert(0 <= i < hs.len() && hs[i].name@ == n);
        crate::store::lemma_name_at(hs2, i);
    }
    assert(crate::store::histories_map(hs2) =~= crate::store::histories_map(hs));
}

} // verus!
