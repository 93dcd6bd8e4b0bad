//! The persisted text form of the store: a JSON-shaped document
//!
//! ```text
//! {
//!   "entries": {
//!     "name": "/some/path"
//!   }
//! }
//! ```
//!
//! with `"` and `\` escaped by a backslash inside string literals;
//! every other character stands for itself.  `save_text` renders a
//! store to exactly this form; `parse_text` reads it back, accepting
//! arbitrary whitespace between tokens; and `load_from_text` — by
//! design, not by accident — recovers an empty store from text that
//! does not parse, so a missing, empty or corrupt file never fails a
//! load.

use vstd::prelude::*;
use crate::store::{Store, entry_view, pairs_view, map_of_pairs};
use crate::text::{push_char, to_chars, str_eq};

verus! {

// ------------------------------------------------------------------
// The rendered form, as spec functions over character sequences.
// ------------------------------------------------------------------

/// A character as it stands inside a string literal.
pub open spec fn esc_char(c: char) -> Seq<char> {
    if c == '"' || c == '\\' {
        seq!['\\', c]
    } else {
        seq![c]
    }
}

/// A character sequence as it stands inside a string literal.
pub open spec fn esc(s: Seq<char>) -> Seq<char>
    decreases s.len(),
{
    if s.len() == 0 {
        Seq::empty()
    } else {
        esc_char(s[0]) + esc(s.skip(1))
    }
}

/// A quoted string literal.
pub open spec fn str_lit(s: Seq<char>) -> Seq<char> {
    seq!['"'] + esc(s) + seq!['"']
}

/// One `"name": "path"` entry.
pub open spec fn entry_text(k: Seq<char>, v: Seq<char>) -> Seq<char> {
    str_lit(k) + seq![':', ' '] + str_lit(v)
}

/// One or more entries, separated by a comma, a newline and the indent
/// of the inner object.
pub open spec fn entries_text(ps: Seq<(Seq<char>, Seq<char>)>) -> Seq<char>
    decreases ps.len(),
{
    if ps.len() == 0 {
        Seq::empty()
    } else if ps.len() == 1 {
        entry_text(ps[0].0, ps[0].1)
    } else {
        entry_text(ps[0].0, ps[0].1) + seq![',', '\n', ' ', ' ', ' ', ' '] + entries_text(ps.skip(1))
    }
}

/// The inner object holding the entries.
pub open spec fn obj_text(ps: Seq<(Seq<char>, Seq<char>)>) -> Seq<char> {
    if ps.len() == 0 {
        seq!['{', '}']
    } else {
        seq!['{', '\n', ' ', ' ', ' ', ' '] + entries_text(ps) + seq!['\n', ' ', ' ', '}']
    }
}

/// The name of the document's one field.
pub open spec fn entries_key() -> Seq<char> {
    seq!['e', 'n', 't', 'r', 'i', 'e', 's']
}

/// The whole persisted document for the given pairs.
pub open spec fn doc_text(ps: Seq<(Seq<char>, Seq<char>)>) -> Seq<char> {
    seq!['{', '\n', ' ', ' '] + str_lit(entries_key()) + seq![':', ' '] + obj_text(ps) + seq!['\n', '}']
}

/// Escaping distributes over concatenation.
pub proof fn lemma_esc_concat(a: Seq<char>, b: Seq<char>)
    ensures
        esc(a + b) == esc(a) + esc(b),
    decreases a.len(),
{
    if a.len() == 0 {
        assert(a + b =~= b);
        assert(esc(a) + esc(b) =~= esc(b));
    } else {
        assert((a + b)[0] == a[0]);
        assert((a + b).skip(1) =~= a.skip(1) + b);
        lemma_esc_concat(a.skip(1), b);
        assert(esc_char(a[0]) + (esc(a.skip(1)) + esc(b)) =~= (esc_char(a[0]) + esc(a.skip(1))) + esc(b));
    }
}

/// Escaping one more character appends its escaped form.
pub proof fn lemma_esc_snoc(s: Seq<char>, i: int)
    requires
        0 <= i < s.len(),
    ensures
        esc(s.take(i + 1)) == esc(s.take(i)) + esc_char(s[i]),
{
    assert(s.take(i + 1).len() == i + 1);
    assert((s.take(i) + seq![s[i]]).len() == i + 1);
    assert forall|j: int| 0 <= j < i + 1 implies s.take(i + 1)[j] == (s.take(i) + seq![s[i]])[j] by {
        assert(s.take(i + 1)[j] == s[j]);
        if j < i {
            assert((s.take(i) + seq![s[i]])[j] == s.take(i)[j]);
            assert(s.take(i)[j] == s[j]);
        } else {
            assert((s.take(i) + seq![s[i]])[j] == seq![s[i]][0]);
        }
    }
    assert(s.take(i + 1) =~= s.take(i) + seq![s[i]]);
    lemma_esc_concat(s.take(i), seq![s[i]]);
    let e = seq![s[i]];
    assert(e[0] == s[i]);
    assert(e.skip(1) =~= Seq::<char>::empty());
    assert(esc(e.skip(1)) == Seq::<char>::empty());
    assert(esc(e) == esc_char(s[i]) + esc(e.skip(1)));
    assert(esc_char(s[i]) + Seq::<char>::empty() =~= esc_char(s[i]));
}

// ------------------------------------------------------------------
// Rendering a store to text.
// ------------------------------------------------------------------

/// Appends the quoted, escaped literal for `s`.
fn write_str_lit(s: &str, out: &mut String)
    ensures
        final(out)@ == old(out)@ + str_lit(s@),
{
    push_char(out, '"');
    let ghost base = out@;
    let len = s.unicode_len();
    let mut i: usize = 0;
    proof {
        assert(s@.take(0) =~= Seq::<char>::empty());
        assert(esc(s@.take(0)) =~= Seq::<char>::empty());
        assert(base + Seq::<char>::empty() =~= base);
    }
    while i < len
        invariant
            i <= len,
            len == s@.len(),
            out@ == base + esc(s@.take(i as int)),
        decreases len - i,
    {
        let c = s.get_char(i);
        let ghost before = out@;
        if c == '"' || c == '\\' {
            push_char(out, '\\');
        }
        push_char(out, c);
        proof {
            lemma_esc_snoc(s@, i as int);
            if c == '"' || c == '\\' {
                assert(out@ =~= before + seq!['\\', c]);
            } else {
                assert(out@ =~= before + seq![c]);
            }
            assert(out@ =~= base + (esc(s@.take(i as int)) + esc_char(s@[i as int])));
        }
        i = i + 1;
    }
    push_char(out, '"');
    proof {
        assert(s@.take(len as int) =~= s@);
        assert(out@ =~= (old(out)@ + seq!['"']) + esc(s@) + seq!['"']);
        assert(out@ =~= old(out)@ + (seq!['"'] + esc(s@) + seq!['"']));
    }
}

/// Appends the entries of `st` from position `i` on, separated as
/// `entries_text` describes.
fn write_entries(st: &Store, i: usize, out: &mut String)
    requires
        i < st.entries_view().len(),
    ensures
        final(out)@ == old(out)@ + entries_text(st.entries_view().skip(i as int)),
    decreases st.entries_view().len() - i,
{
    let ghost suffix = st.entries_view().skip(i as int);
    let n = st.len();
    let (k, v) = st.entry_at(i);
    write_str_lit(k.as_str(), out);
    push_char(out, ':');
    push_char(out, ' ');
    write_str_lit(v.as_str(), out);
    proof {
        assert(suffix[0] == st.entries_view()[i as int]);
        assert(out@ =~= old(out)@ + entry_text(suffix[0].0, suffix[0].1));
    }
    if i + 1 < n {
        push_char(out, ',');
        push_char(out, '\n');
        push_char(out, ' ');
        push_char(out, ' ');
        push_char(out, ' ');
        push_char(out, ' ');
        let ghost mid = out@;
        write_entries(st, i + 1, out);
        proof {
            assert(st.entries_view().skip(i + 1) =~= suffix.skip(1));
            assert(mid =~= old(out)@ + entry_text(suffix[0].0, suffix[0].1) + seq![',', '\n', ' ', ' ', ' ', ' ']);
            assert(out@ =~= old(out)@ + (entry_text(suffix[0].0, suffix[0].1) + seq![',', '\n', ' ', ' ', ' ', ' '] + entries_text(suffix.skip(1))));
            assert(suffix.len() > 1);
        }
    } else {
        proof {
            assert(suffix.len() == 1);
        }
    }
}

/// The persisted text for `st`: exactly `doc_text` of its entries.
pub fn save_text(st: &Store) -> (r: String)
    ensures
        r@ == doc_text(st.entries_view()),
{
    let mut out = String::new();
    push_char(&mut out, '{');
    push_char(&mut out, '\n');
    push_char(&mut out, ' ');
    push_char(&mut out, ' ');
    let ghost head = out@;
    write_str_lit("entries", &mut out);
    proof {
        reveal_strlit("entries");
        assert("entries"@ =~= entries_key());
        assert(head =~= seq!['{', '\n', ' ', ' ']);
    }
    push_char(&mut out, ':');
    push_char(&mut out, ' ');
    let ghost mid = out@;
    proof {
        assert(mid =~= seq!['{', '\n', ' ', ' '] + str_lit(entries_key()) + seq![':', ' ']);
    }
    if st.len() == 0 {
        push_char(&mut out, '{');
        push_char(&mut out, '}');
        proof {
            assert(out@ =~= mid + obj_text(st.entries_view()));
        }
    } else {
        push_char(&mut out, '{');
        push_char(&mut out, '\n');
        push_char(&mut out, ' ');
        push_char(&mut out, ' ');
        push_char(&mut out, ' ');
        push_char(&mut out, ' ');
        let ghost mid2 = out@;
        write_entries(st, 0, &mut out);
        push_char(&mut out, '\n');
        push_char(&mut out, ' ');
        push_char(&mut out, ' ');
        push_char(&mut out, '}');
        proof {
            assert(st.entries_view().skip(0) =~= st.entries_view());
            assert(mid2 =~= mid + seq!['{', '\n', ' ', ' ', ' ', ' ']);
            assert(out@ =~= mid + (seq!['{', '\n', ' ', ' ', ' ', ' '] + entries_text(st.entries_view()) + seq!['\n', ' ', ' ', '}']));
            assert(out@ =~= mid + obj_text(st.entries_view()));
        }
    }
    push_char(&mut out, '\n');
    push_char(&mut out, '}');
    proof {
        assert(out@ =~= mid + obj_text(st.entries_view()) + seq!['\n', '}']);
        assert(out@ =~= doc_text(st.entries_view()));
    }
    out
}

// ------------------------------------------------------------------
// Parsing, as spec functions over character sequences.  Each takes the
// remaining input and yields what it read plus the rest of the input.
// ------------------------------------------------------------------

/// The whitespace accepted between tokens.
pub open spec fn is_ws(c: char) -> bool {
    c == ' ' || c == '\n' || c == '\t' || c == '\r'
}

/// The input with its leading whitespace dropped.
pub open spec fn skip_ws(s: Seq<char>) -> Seq<char>
    decreases s.len(),
{
    if s.len() > 0 && is_ws(s[0]) {
        skip_ws(s.skip(1))
    } else {
        s
    }
}

/// The body of a string literal, after its opening quote: characters up
/// to an unescaped closing quote, with `\"` and `\\` decoded.
pub open spec fn parse_str_body(s: Seq<char>) -> Option<(Seq<char>, Seq<char>)>
    decreases s.len(),
{
    if s.len() == 0 {
        None
    } else if s[0] == '"' {
        Some((Seq::empty(), s.skip(1)))
    } else if s[0] == '\\' {
        if s.len() >= 2 && (s[1] == '"' || s[1] == '\\') {
            match parse_str_body(s.skip(2)) {
                Some(tr) => Some((seq![s[1]] + tr.0, tr.1)),
                None => None,
            }
        } else {
            None
        }
    } else {
        match parse_str_body(s.skip(1)) {
            Some(tr) => Some((seq![s[0]] + tr.0, tr.1)),
            None => None,
        }
    }
}

/// A quoted string literal.
pub open spec fn parse_string(s: Seq<char>) -> Option<(Seq<char>, Seq<char>)> {
    if s.len() > 0 && s[0] == '"' {
        parse_str_body(s.skip(1))
    } else {
        None
    }
}

/// One `"name": "path"` entry.
pub open spec fn parse_entry(s: Seq<char>) -> Option<((Seq<char>, Seq<char>), Seq<char>)> {
    match parse_string(s) {
        Some(kr) => {
            let r2 = skip_ws(kr.1);
            if r2.len() > 0 && r2[0] == ':' {
                let r3 = skip_ws(r2.skip(1));
                match parse_string(r3) {
                    Some(vr) => Some(((kr.0, vr.0), vr.1)),
                    None => None,
                }
            } else {
                None
            }
        },
        None => None,
    }
}

/// One or more comma-separated entries, up to and including the `}`
/// that closes the inner object.
pub open spec fn parse_entries(s: Seq<char>) -> Option<(Seq<(Seq<char>, Seq<char>)>, Seq<char>)>
    decreases s.len(),
{
    match parse_entry(s) {
        Some(er) => {
            let r2 = skip_ws(er.1);
            if r2.len() > 0 && r2[0] == ',' {
                let r3 = skip_ws(r2.skip(1));
                if r3.len() < s.len() {
                    match parse_entries(r3) {
                        Some(pr) => Some((seq![er.0] + pr.0, pr.1)),
                        None => None,
                    }
                } else {
                    None
                }
            } else if r2.len() > 0 && r2[0] == '}' {
                Some((seq![er.0], r2.skip(1)))
            } else {
                None
            }
        },
        None => None,
    }
}

/// The inner object: `{}` or `{` entries `}`.
pub open spec fn parse_obj(s: Seq<char>) -> Option<(Seq<(Seq<char>, Seq<char>)>, Seq<char>)> {
    if s.len() > 0 && s[0] == '{' {
        let r1 = skip_ws(s.skip(1));
        if r1.len() > 0 && r1[0] == '}' {
            Some((Seq::empty(), r1.skip(1)))
        } else {
            parse_entries(r1)
        }
    } else {
        None
    }
}

/// The whole document: the entry pairs it holds, in the order written,
/// or `None` where the text is not of the persisted form.
pub open spec fn parse_doc(s: Seq<char>) -> Option<Seq<(Seq<char>, Seq<char>)>> {
    let r0 = skip_ws(s);
    if r0.len() > 0 && r0[0] == '{' {
        let r1 = skip_ws(r0.skip(1));
        match parse_string(r1) {
            Some(kr) => {
                if kr.0 == entries_key() {
                    let r2 = skip_ws(kr.1);
                    if r2.len() > 0 && r2[0] == ':' {
                        let r3 = skip_ws(r2.skip(1));
                        match parse_obj(r3) {
                            Some(pr) => {
                                let r4 = skip_ws(pr.1);
                                if r4.len() > 0 && r4[0] == '}' && skip_ws(r4.skip(1)).len() == 0 {
                                    Some(pr.0)
                                } else {
                                    None
                                }
                            },
                            None => None,
                        }
                    } else {
                        None
                    }
                } else {
                    None
                }
            },
            None => None,
        }
    } else {
        None
    }
}

// ------------------------------------------------------------------
// The executable parser.  Each function mirrors the spec function of
// the same name on `s@.skip(i)`, handing back the index it stopped at.
// ------------------------------------------------------------------

/// The index after the whitespace starting at `i`.
fn ex_skip_ws(s: &Vec<char>, i: usize) -> (j: usize)
    requires
        i <= s.len(),
    ensures
        i <= j <= s@.len(),
        s@.skip(j as int) == skip_ws(s@.skip(i as int)),
    decreases s@.len() - i,
{
    if i < s.len() {
        let c = s[i];
        if c == ' ' || c == '\n' || c == '\t' || c == '\r' {
            proof {
                assert(s@.skip(i as int)[0] == s@[i as int]);
                assert(s@.skip(i as int).skip(1) =~= s@.skip(i + 1));
            }
            return ex_skip_ws(s, i + 1);
        }
        proof {
            assert(s@.skip(i as int)[0] == s@[i as int]);
        }
    }
    i
}

/// Reads a string-literal body starting at `i`, appending the decoded
/// characters to `out`.
fn ex_str_body(s: &Vec<char>, i: usize, out: &mut String) -> (r: Option<usize>)
    requires
        i <= s.len(),
    ensures
        r is Some <==> parse_str_body(s@.skip(i as int)) is Some,
        r matches Some(j) ==> parse_str_body(s@.skip(i as int)) matches Some(tr)
            && i <= j <= s@.len() && final(out)@ == old(out)@ + tr.0 && s@.skip(j as int) == tr.1,
    decreases s@.len() - i,
{
    if i == s.len() {
        return None;
    }
    let c = s[i];
    proof {
        assert(s@.skip(i as int)[0] == s@[i as int]);
    }
    if c == '"' {
        proof {
            assert(s@.skip(i as int).skip(1) =~= s@.skip(i + 1));
            assert(old(out)@ + Seq::<char>::empty() =~= old(out)@);
        }
        return Some(i + 1);
    }
    if c == '\\' {
        if i + 1 == s.len() {
            return None;
        }
        let c2 = s[i + 1];
        proof {
            assert(s@.skip(i as int)[1] == s@[i as int + 1]);
        }
        if c2 == '"' || c2 == '\\' {
            push_char(out, c2);
            proof {
                assert(s@.skip(i as int).skip(2) =~= s@.skip(i + 2));
            }
            let r = ex_str_body(s, i + 2, out);
            proof {
                if r is Some {
                    let tr = parse_str_body(s@.skip(i + 2)).unwrap();
                    assert(out@ =~= old(out)@ + (seq![c2] + tr.0));
                }
            }
            return r;
        }
        return None;
    }
    push_char(out, c);
    proof {
        assert(s@.skip(i as int).skip(1) =~= s@.skip(i + 1));
    }
    let r = ex_str_body(s, i + 1, out);
    proof {
        if r is Some {
            let tr = parse_str_body(s@.skip(i + 1)).unwrap();
            assert(out@ =~= old(out)@ + (seq![c] + tr.0));
        }
    }
    r
}

/// Reads a quoted string literal starting at `i`.
fn ex_string(s: &Vec<char>, i: usize) -> (r: Option<(String, usize)>)
    requires
        i <= s.len(),
    ensures
        r is Some <==> parse_string(s@.skip(i as int)) is Some,
        r matches Some(p) ==> parse_string(s@.skip(i as int)) matches Some(tr)
            && p.1 <= s@.len() && p.0@ == tr.0 && s@.skip(p.1 as int) == tr.1,
{
    if i == s.len() {
        return None;
    }
    proof {
        assert(s@.skip(i as int)[0] == s@[i as int]);
    }
    if s[i] != '"' {
        return None;
    }
    let mut out = String::new();
    proof {
        assert(s@.skip(i as int).skip(1) =~= s@.skip(i + 1));
    }
    match ex_str_body(s, i + 1, &mut out) {
        Some(j) => {
            proof {
                if parse_str_body(s@.skip(i + 1)) is Some {
                    let tr = parse_str_body(s@.skip(i + 1)).unwrap();
                    assert(Seq::<char>::empty() + tr.0 =~= tr.0);
                }
            }
            Some((out, j))
        },
        None => None,
    }
}

/// Reads one `"name": "path"` entry starting at `i`.
fn ex_entry(s: &Vec<char>, i: usize) -> (r: Option<((String, String), usize)>)
    requires
        i <= s.len(),
    ensures
        r is Some <==> parse_entry(s@.skip(i as int)) is Some,
        r matches Some(p) ==> parse_entry(s@.skip(i as int)) matches Some(er)
            && p.1 <= s@.len() && p.0.0@ == er.0.0 && p.0.1@ == er.0.1 && s@.skip(p.1 as int) == er.1,
{
    match ex_string(s, i) {
        Some((k, j1)) => {
            let j2 = ex_skip_ws(s, j1);
            if j2 == s.len() {
                return None;
            }
            proof {
                assert(s@.skip(j2 as int)[0] == s@[j2 as int]);
            }
            if s[j2] != ':' {
                return None;
            }
            proof {
                assert(s@.skip(j2 as int).skip(1) =~= s@.skip(j2 + 1));
            }
            let j3 = ex_skip_ws(s, j2 + 1);
            match ex_string(s, j3) {
                Some((v, j4)) => Some(((k, v), j4)),
                None => None,
            }
        },
        None => None,
    }
}

/// Reads comma-separated entries and the closing `}` starting at `i`,
/// pushing each entry onto `out`.
fn ex_entries(s: &Vec<char>, i: usize, out: &mut Vec<(String, String)>) -> (r: Option<usize>)
    requires
        i <= s.len(),
    ensures
        r is Some <==> parse_entries(s@.skip(i as int)) is Some,
        r matches Some(j) ==> parse_entries(s@.skip(i as int)) matches Some(pr)
            && j <= s@.len() && pairs_view(final(out)@) == pairs_view(old(out)@) + pr.0
            && s@.skip(j as int) == pr.1,
    decreases s@.len() - i,
{
    match ex_entry(s, i) {
        Some((kv, j1)) => {
            let ghost kvv = entry_view(kv);
            let ghost out0 = out@;
            out.push(kv);
            proof {
                assert(out@ == out0.push(out@[out0.len() as int]));
                assert forall|j: int| 0 <= j < out@.len() implies #[trigger] pairs_view(out@)[j]
                    == (pairs_view(out0) + seq![kvv])[j] by {
                    if j < out0.len() {
                        assert(out@[j] == out0[j]);
                        assert(pairs_view(out0)[j] == entry_view(out0[j]));
                    }
                }
                assert(pairs_view(out@) =~= pairs_view(out0) + seq![kvv]);
            }
            let j2 = ex_skip_ws(s, j1);
            if j2 < s.len() {
                proof {
                    assert(s@.skip(j2 as int)[0] == s@[j2 as int]);
                }
                let c = s[j2];
                if c == ',' {
                    proof {
                        assert(s@.skip(j2 as int).skip(1) =~= s@.skip(j2 + 1));
                    }
                    let j3 = ex_skip_ws(s, j2 + 1);
                    if j3 > i {
                        let r = ex_entries(s, j3, out);
                        proof {
                            if r is Some {
                                let pr = parse_entries(s@.skip(j3 as int)).unwrap();
                                assert(pairs_view(out@) =~= pairs_view(out0) + (seq![kvv] + pr.0));
                            }
                        }
                        return r;
                    }
                    return None;
                }
                if c == '}' {
                    proof {
                        assert(s@.skip(j2 as int).skip(1) =~= s@.skip(j2 + 1));
                        assert(pairs_view(out@) =~= pairs_view(out0) + seq![kvv]);
                    }
                    return Some(j2 + 1);
                }
                return None;
            }
            None
        },
        None => None,
    }
}

/// Reads the inner object starting at `i`, pushing its entries onto `out`.
fn ex_obj(s: &Vec<char>, i: usize, out: &mut Vec<(String, String)>) -> (r: Option<usize>)
    requires
        i <= s.len(),
    ensures
        r is Some <==> parse_obj(s@.skip(i as int)) is Some,
        r matches Some(j) ==> parse_obj(s@.skip(i as int)) matches Some(pr)
            && j <= s@.len() && pairs_view(final(out)@) == pairs_view(old(out)@) + pr.0
            && s@.skip(j as int) == pr.1,
{
    if i == s.len() {
        return None;
    }
    proof {
        assert(s@.skip(i as int)[0] == s@[i as int]);
    }
    if s[i] != '{' {
        return None;
    }
    proof {
        assert(s@.skip(i as int).skip(1) =~= s@.skip(i + 1));
    }
    let j1 = ex_skip_ws(s, i + 1);
    if j1 < s.len() {
        proof {
            assert(s@.skip(j1 as int)[0] == s@[j1 as int]);
        }
        if s[j1] == '}' {
            proof {
                assert(s@.skip(j1 as int).skip(1) =~= s@.skip(j1 + 1));
                assert(pairs_view(out@) + Seq::<(Seq<char>, Seq<char>)>::empty() =~= pairs_view(out@));
            }
            return Some(j1 + 1);
        }
    }
    ex_entries(s, j1, out)
}

/// Reads a whole persisted document: the entry pairs it holds, in the
/// order written, or `None` where the text is not of the persisted form.
pub fn parse_text(text: &str) -> (r: Option<Vec<(String, String)>>)
    ensures
        r is Some <==> parse_doc(text@) is Some,
        r matches Some(v) ==> parse_doc(text@) matches Some(ps) && pairs_view(v@) == ps,
{
    let s = to_chars(text);
    proof {
        assert(s@.skip(0) =~= text@);
    }
    let i0 = ex_skip_ws(&s, 0);
    if i0 == s.len() {
        return None;
    }
    proof {
        assert(s@.skip(i0 as int)[0] == s@[i0 as int]);
    }
    if s[i0] != '{' {
        return None;
    }
    proof {
        assert(s@.skip(i0 as int).skip(1) =~= s@.skip(i0 + 1));
    }
    let i1 = ex_skip_ws(&s, i0 + 1);
    match ex_string(&s, i1) {
        Some((key, i2)) => {
            let is_entries = str_eq(key.as_str(), "entries");
            proof {
                reveal_strlit("entries");
                assert("entries"@ =~= entries_key());
            }
            if !is_entries {
                return None;
            }
            let i3 = ex_skip_ws(&s, i2);
            if i3 == s.len() {
                return None;
            }
            proof {
                assert(s@.skip(i3 as int)[0] == s@[i3 as int]);
            }
            if s[i3] != ':' {
                return None;
            }
            proof {
                assert(s@.skip(i3 as int).skip(1) =~= s@.skip(i3 + 1));
            }
            let i4 = ex_skip_ws(&s, i3 + 1);
            let mut pairs: Vec<(String, String)> = Vec::new();
            let ghost pairs0 = pairs@;
            match ex_obj(&s, i4, &mut pairs) {
                Some(i5) => {
                    let i6 = ex_skip_ws(&s, i5);
                    if i6 == s.len() {
                        return None;
                    }
                    proof {
                        assert(s@.skip(i6 as int)[0] == s@[i6 as int]);
                    }
                    if s[i6] != '}' {
                        return None;
                    }
                    proof {
                        assert(s@.skip(i6 as int).skip(1) =~= s@.skip(i6 + 1));
                    }
                    let i7 = ex_skip_ws(&s, i6 + 1);
                    if i7 < s.len() {
                        proof {
                            assert(s@.skip(i7 as int).len() == s@.len() - i7);
                        }
                        return None;
                    }
                    proof {
                        assert(s@.skip(i7 as int).len() == 0);
                        let pr = parse_obj(s@.skip(i4 as int)).unwrap();
                        assert(pairs_view(pairs0) + pr.0 =~= pr.0);
                    }
                    Some(pairs)
                },
                None => None,
            }
        },
        None => None,
    }
}

/// The store a persisted text denotes: its pairs folded in order where
/// the text parses, and the empty store where it does not — a missing,
/// empty or corrupt file loads as no bookmarks at all.
pub fn load_from_text(text: &str) -> (st: Store)
    ensures
        st.wf(),
        parse_doc(text@) matches Some(ps) ==> st@ == map_of_pairs(ps),
        parse_doc(text@) is None ==> st@ == Map::<Seq<char>, Seq<char>>::empty(),
{
    match parse_text(text) {
        Some(pairs) => Store::from_pairs(pairs),
        None => Store::new(),
    }
}

// ------------------------------------------------------------------
// Round trip: parsing inverts rendering.
// ------------------------------------------------------------------

/// Dropping leading whitespace passes over any all-whitespace prefix.
proof fn lemma_skip_ws_concat(w: Seq<char>, rest: Seq<char>)
    requires
        forall|i: int| 0 <= i < w.len() ==> is_ws(#[trigger] w[i]),
    ensures
        skip_ws(w + rest) == skip_ws(rest),
    decreases w.len(),
{
    if w.len() == 0 {
        assert(w + rest =~= rest);
    } else {
        assert((w + rest)[0] == w[0]);
        assert((w + rest).skip(1) =~= w.skip(1) + rest);
        lemma_skip_ws_concat(w.skip(1), rest);
    }
}

/// A rendered string-literal body parses back to the characters it encodes.
proof fn lemma_parse_str_body_esc(s: Seq<char>, rest: Seq<char>)
    ensures
        parse_str_body(esc(s) + seq!['"'] + rest) == Some((s, rest)),
    decreases s.len(),
{
    let input = esc(s) + seq!['"'] + rest;
    if s.len() == 0 {
        assert(esc(s) == Seq::<char>::empty());
        assert(input =~= seq!['"'] + rest);
        assert(input[0] == '"');
        assert(input.skip(1) =~= rest);
        assert(s =~= Seq::<char>::empty());
    } else {
        let c = s[0];
        let sub = esc(s.skip(1)) + seq!['"'] + rest;
        lemma_parse_str_body_esc(s.skip(1), rest);
        assert(esc(s) == esc_char(c) + esc(s.skip(1)));
        if c == '"' || c == '\\' {
            assert(esc_char(c) =~= seq!['\\', c]);
            assert(input =~= seq!['\\', c] + sub);
            assert(input[0] == '\\');
            assert(input[1] == c);
            assert(input.len() >= 2);
            assert(input.skip(2) =~= sub);
            assert(seq![input[1]] + s.skip(1) =~= s);
        } else {
            assert(esc_char(c) =~= seq![c]);
            assert(input =~= seq![c] + sub);
            assert(input[0] == c);
            assert(input.skip(1) =~= sub);
            assert(seq![input[0]] + s.skip(1) =~= s);
        }
    }
}

/// A rendered string literal parses back to the characters it encodes.
proof fn lemma_parse_string_lit(s: Seq<char>, rest: Seq<char>)
    ensures
        parse_string(str_lit(s) + rest) == Some((s, rest)),
{
    let input = str_lit(s) + rest;
    assert(input =~= seq!['"'] + (esc(s) + seq!['"'] + rest));
    assert(input[0] == '"');
    assert(input.skip(1) =~= esc(s) + seq!['"'] + rest);
    lemma_parse_str_body_esc(s, rest);
}

/// A rendered entry parses back to its pair of character sequences.
proof fn lemma_parse_entry_text(k: Seq<char>, v: Seq<char>, rest: Seq<char>)
    ensures
        parse_entry(entry_text(k, v) + rest) == Some(((k, v), rest)),
{
    let r1 = seq![':', ' '] + (str_lit(v) + rest);
    let input = entry_text(k, v) + rest;
    assert(input =~= str_lit(k) + r1);
    lemma_parse_string_lit(k, r1);
    assert(r1[0] == ':');
    assert(skip_ws(r1) == r1);
    assert(r1.skip(1) =~= seq![' '] + (str_lit(v) + rest));
    lemma_skip_ws_concat(seq![' '], str_lit(v) + rest);
    assert((str_lit(v) + rest)[0] == '"');
    assert(skip_ws(str_lit(v) + rest) == str_lit(v) + rest);
    lemma_parse_string_lit(v, rest);
}

/// Rendered entries start with the quote of their first name.
proof fn lemma_entries_head(ps: Seq<(Seq<char>, Seq<char>)>)
    requires
        ps.len() > 0,
    ensures
        entries_text(ps).len() > 0,
        entries_text(ps)[0] == '"',
{
    let e = entry_text(ps[0].0, ps[0].1);
    assert(e[0] == '"');
    if ps.len() == 1 {
    } else {
        assert(entries_text(ps)[0] == e[0]);
    }
}

/// A rendered entry list followed by the closing of the two objects
/// parses back to exactly its pairs.
proof fn lemma_parse_entries_text(ps: Seq<(Seq<char>, Seq<char>)>, rest: Seq<char>)
    requires
        ps.len() >= 1,
    ensures
        parse_entries(entries_text(ps) + (seq!['\n', ' ', ' ', '}'] + rest)) == Some((ps, rest)),
    decreases ps.len(),
{
    let tail = seq!['\n', ' ', ' ', '}'] + rest;
    let input = entries_text(ps) + tail;
    if ps.len() == 1 {
        assert(entries_text(ps) == entry_text(ps[0].0, ps[0].1));
        lemma_parse_entry_text(ps[0].0, ps[0].1, tail);
        assert((ps[0].0, ps[0].1) == ps[0]);
        assert(tail =~= seq!['\n', ' ', ' '] + (seq!['}'] + rest));
        lemma_skip_ws_concat(seq!['\n', ' ', ' '], seq!['}'] + rest);
        assert((seq!['}'] + rest)[0] == '}');
        assert(skip_ws(seq!['}'] + rest) == seq!['}'] + rest);
        assert((seq!['}'] + rest).skip(1) =~= rest);
        assert(seq![ps[0]] =~= ps);
    } else {
        let sep = seq![',', '\n', ' ', ' ', ' ', ' '];
        let r3 = entries_text(ps.skip(1)) + tail;
        let rest1 = sep + r3;
        assert(entries_text(ps) == entry_text(ps[0].0, ps[0].1) + sep + entries_text(ps.skip(1)));
        assert(input =~= entry_text(ps[0].0, ps[0].1) + rest1);
        lemma_parse_entry_text(ps[0].0, ps[0].1, rest1);
        assert((ps[0].0, ps[0].1) == ps[0]);
        assert(rest1[0] == ',');
        assert(skip_ws(rest1) == rest1);
        assert(rest1.skip(1) =~= seq!['\n', ' ', ' ', ' ', ' '] + r3);
        lemma_skip_ws_concat(seq!['\n', ' ', ' ', ' ', ' '], r3);
        lemma_entries_head(ps.skip(1));
        assert(r3[0] == '"');
        assert(skip_ws(r3) == r3);
        assert(r3.len() < input.len());
        lemma_parse_entries_text(ps.skip(1), rest);
        assert(seq![ps[0]] + ps.skip(1) =~= ps);
    }
}

/// A rendered inner object parses back to exactly its pairs.
proof fn lemma_parse_obj_text(ps: Seq<(Seq<char>, Seq<char>)>, rest: Seq<char>)
    ensures
        parse_obj(obj_text(ps) + rest) == Some((ps, rest)),
{
    let input = obj_text(ps) + rest;
    if ps.len() == 0 {
        assert(input =~= seq!['{', '}'] + rest);
        assert(input[0] == '{');
        assert(input.skip(1) =~= seq!['}'] + rest);
        assert(skip_ws(seq!['}'] + rest) == seq!['}'] + rest);
        assert((seq!['}'] + rest)[0] == '}');
        assert((seq!['}'] + rest).skip(1) =~= rest);
        assert(Seq::<(Seq<char>, Seq<char>)>::empty() =~= ps);
    } else {
        let tail = seq!['\n', ' ', ' ', '}'] + rest;
        let r1 = entries_text(ps) + tail;
        assert(input =~= seq!['{', '\n', ' ', ' ', ' ', ' '] + (entries_text(ps) + tail));
        assert(input[0] == '{');
        assert(input.skip(1) =~= seq!['\n', ' ', ' ', ' ', ' '] + r1);
        lemma_skip_ws_concat(seq!['\n', ' ', ' ', ' ', ' '], r1);
        lemma_entries_head(ps);
        assert(r1[0] == '"');
        assert(skip_ws(r1) == r1);
        lemma_parse_entries_text(ps, rest);
    }
}

/// A rendered document parses back to exactly its pairs.
proof fn lemma_parse_doc_text(ps: Seq<(Seq<char>, Seq<char>)>)
    ensures
        parse_doc(doc_text(ps)) == Some(ps),
{
    let d = doc_text(ps);
    let kstr = str_lit(entries_key());
    let objt = obj_text(ps);
    let x1 = seq![':', ' '] + (objt + seq!['\n', '}']);
    assert(d[0] == '{');
    assert(skip_ws(d) == d);
    assert(d.skip(1) =~= seq!['\n', ' ', ' '] + (kstr + x1));
    lemma_skip_ws_concat(seq!['\n', ' ', ' '], kstr + x1);
    assert(kstr[0] == '"');
    assert((kstr + x1)[0] == '"');
    assert(skip_ws(kstr + x1) == kstr + x1);
    lemma_parse_string_lit(entries_key(), x1);
    assert(x1[0] == ':');
    assert(skip_ws(x1) == x1);
    assert(x1.skip(1) =~= seq![' '] + (objt + seq!['\n', '}']));
    lemma_skip_ws_concat(seq![' '], objt + seq!['\n', '}']);
    assert(objt[0] == '{');
    assert((objt + seq!['\n', '}'])[0] == '{');
    assert(skip_ws(objt + seq!['\n', '}']) == objt + seq!['\n', '}']);
    lemma_parse_obj_text(ps, seq!['\n', '}']);
    assert(seq!['\n', '}'] =~= seq!['\n'] + seq!['}']);
    lemma_skip_ws_concat(seq!['\n'], seq!['}']);
    assert(skip_ws(seq!['}']) == seq!['}']);
    assert(seq!['}'][0] == '}');
    assert(seq!['}'].skip(1) =~= Seq::<char>::empty());
    assert(skip_ws(Seq::<char>::empty()).len() == 0);
}

/// Round-trip law: the rendered text of a store parses back to exactly
/// its entries, and those entries denote the store's own mapping — so
/// a save followed by a load reproduces an equal mapping.
pub proof fn lemma_save_load_round_trip(st: Store)
    ensures
        parse_doc(doc_text(st.entries_view())) == Some(st.entries_view()),
        map_of_pairs(st.entries_view()) == st@,
{
    lemma_parse_doc_text(st.entries_view());
}

/// Fresh-start law: empty text does not parse, so loading a missing or
/// empty file yields the empty store.
pub proof fn lemma_empty_text_no_parse()
    ensures
        parse_doc(Seq::<char>::empty()) is None,
{
    assert(skip_ws(Seq::<char>::empty()) == Seq::<char>::empty());
}

} // verus!
