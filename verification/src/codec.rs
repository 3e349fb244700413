//! The stored file format: a nested, human-readable, whitespace-tolerant
//! structured text — an object with one array-valued field `words`, each
//! element an object with the two string fields `term` and `definition`.
//!
//! [`ser_vocab`] gives the exact text written for a vocabulary value and
//! [`parse_vocab`] the value read back from a text, both at the
//! specification level; loading a saved vocabulary returns exactly the
//! saved value ([`lemma_save_load_round_trip`]).

use vstd::prelude::*;
use crate::store::{TermDef, Vocabulary};
use crate::text::{is_ws, skip_ws};

verus! {

// ---------------------------------------------------------------------------
// String escaping
// ---------------------------------------------------------------------------
/// How one character is written inside a quoted string: quote, backslash and
/// the three blank characters that the format itself uses get a two-character
/// escape, everything else stands for itself.
pub open spec fn esc_char(c: char) -> Seq<char> {
    if c == '"' {
        seq!['\\', '"']
    } else if c == '\\' {
        seq!['\\', '\\']
    } else if c == '\n' {
        seq!['\\', 'n']
    } else if c == '\t' {
        seq!['\\', 't']
    } else if c == '\r' {
        seq!['\\', 'r']
    } else {
        seq![c]
    }
}

/// A whole string, escaped character by character.
pub open spec fn esc_str(s: Seq<char>) -> Seq<char>
    decreases s.len(),
{
    if s.len() == 0 {
        Seq::empty()
    } else {
        esc_char(s[0]) + esc_str(s.drop_first())
    }
}

/// A string as it stands in the file: escaped, between double quotes.
pub open spec fn quoted(s: Seq<char>) -> Seq<char> {
    seq!['"'] + esc_str(s) + seq!['"']
}

/// The character a short escape `\x` stands for; `None` when `x` opens no
/// short escape.
pub open spec fn unesc_short(c: char) -> Option<char> {
    if c == '"' {
        Some('"')
    } else if c == '\\' {
        Some('\\')
    } else if c == '/' {
        Some('/')
    } else if c == 'n' {
        Some('\n')
    } else if c == 't' {
        Some('\t')
    } else if c == 'r' {
        Some('\r')
    } else if c == 'b' {
        Some('\u{8}')
    } else if c == 'f' {
        Some('\u{c}')
    } else {
        None
    }
}

// ---------------------------------------------------------------------------
// The serialized form
// ---------------------------------------------------------------------------
/// The field name `term`.
pub open spec fn key_term() -> Seq<char> {
    seq!['t', 'e', 'r', 'm']
}

/// The field name `definition`.
pub open spec fn key_definition() -> Seq<char> {
    seq!['d', 'e', 'f', 'i', 'n', 'i', 't', 'i', 'o', 'n']
}

/// The field name `words`.
pub open spec fn key_words() -> Seq<char> {
    seq!['w', 'o', 'r', 'd', 's']
}

/// One entry as written in the file, indented two levels.
pub open spec fn ser_entry(t: Seq<char>, d: Seq<char>) -> Seq<char> {
    seq![' ', ' ', ' ', ' ', '{', '\n', ' ', ' ', ' ', ' ', ' ', ' '] + quoted(key_term()) + seq![
        ':',
        ' ',
    ] + quoted(t) + seq![',', '\n', ' ', ' ', ' ', ' ', ' ', ' '] + quoted(key_definition())
        + seq![':', ' '] + quoted(d) + seq!['\n', ' ', ' ', ' ', ' ', '}']
}

/// The second and later entries, each preceded by a comma separator.
pub open spec fn ser_rest(m: Seq<TermDef>) -> Seq<char>
    decreases m.len(),
{
    if m.len() == 0 {
        Seq::empty()
    } else {
        seq![',', '\n'] + ser_entry(m[0].0, m[0].1) + ser_rest(m.drop_first())
    }
}

/// The whole array body between `[` and `]`: empty, or the entries on lines
/// of their own.
pub open spec fn ser_entries(m: Seq<TermDef>) -> Seq<char> {
    if m.len() == 0 {
        Seq::empty()
    } else {
        seq!['\n'] + ser_entry(m[0].0, m[0].1) + ser_rest(m.drop_first()) + seq!['\n', ' ', ' ']
    }
}

/// Everything before the array body: the opening brace and the `words` key.
pub open spec fn ser_header() -> Seq<char> {
    seq!['{', '\n', ' ', ' '] + quoted(key_words()) + seq![':', ' ', '[']
}

/// The file text for a vocabulary value.
pub open spec fn ser_vocab(m: Seq<TermDef>) -> Seq<char> {
    ser_header() + ser_entries(m) + seq![']', '\n', '}']
}

// ---------------------------------------------------------------------------
// Parsing
// ---------------------------------------------------------------------------
/// Skip whitespace, then demand the character `c`; the rest follows it.
pub open spec fn expect(s: Seq<char>, c: char) -> Option<Seq<char>> {
    let t = skip_ws(s);
    if t.len() > 0 && t[0] == c {
        Some(t.drop_first())
    } else {
        None
    }
}

/// The body of a quoted string, after its opening quote: the characters up
/// to the closing quote with escapes undone, and the rest of the input.
pub open spec fn parse_str_body(s: Seq<char>) -> Option<(Seq<char>, Seq<char>)>
    decreases s.len(),
{
    if s.len() == 0 {
        None
    } else if s[0] == '"' {
        Some((Seq::empty(), s.drop_first()))
    } else if s[0] == '\\' {
        if s.len() >= 2 {
            match unesc_short(s[1]) {
                Some(c) => match parse_str_body(s.skip(2)) {
                    Some(p) => Some((seq![c] + p.0, p.1)),
                    None => None,
                },
                None => None,
            }
        } else {
            None
        }
    } else {
        match parse_str_body(s.drop_first()) {
            Some(p) => Some((seq![s[0]] + p.0, p.1)),
            None => None,
        }
    }
}

/// A quoted string with optional leading whitespace.
pub open spec fn parse_quoted(s: Seq<char>) -> Option<(Seq<char>, Seq<char>)> {
    match expect(s, '"') {
        Some(t) => parse_str_body(t),
        None => None,
    }
}

/// One `{ "term": ..., "definition": ... }` object.
pub open spec fn parse_entry(s: Seq<char>) -> Option<(TermDef, Seq<char>)> {
    match expect(s, '{') {
        Some(s1) => match parse_quoted(s1) {
            Some((k1, s2)) => if k1 == key_term() {
                match expect(s2, ':') {
                    Some(s3) => match parse_quoted(s3) {
                        Some((t, s4)) => match expect(s4, ',') {
                            Some(s5) => match parse_quoted(s5) {
                                Some((k2, s6)) => if k2 == key_definition() {
                                    match expect(s6, ':') {
                                        Some(s7) => match parse_quoted(s7) {
                                            Some((d, s8)) => match expect(s8, '}') {
                                                Some(s9) => Some(((t, d), s9)),
                                                None => None,
                                            },
                                            None => None,
                                        },
                                        None => None,
                                    }
                                } else {
                                    None
                                },
                                None => None,
                            },
                            None => None,
                        },
                        None => None,
                    },
                    None => None,
                }
            } else {
                None
            },
            None => None,
        },
        None => None,
    }
}

/// The entries after the first one: a closing bracket ends the list, a comma
/// introduces one more entry.
pub open spec fn parse_entries_rest(s: Seq<char>) -> Option<(Seq<TermDef>, Seq<char>)>
    decreases s.len(),
{
    match expect(s, ']') {
        Some(t) => Some((Seq::empty(), t)),
        None => match expect(s, ',') {
            Some(s1) => match parse_entry(s1) {
                Some((e, s2)) => {
                    proof {
                        lemma_expect_shrinks(s, ',');
                        lemma_entry_shrinks(s1);
                    }
                    match parse_entries_rest(s2) {
                        Some((es, s3)) => Some((seq![e] + es, s3)),
                        None => None,
                    }
                },
                None => None,
            },
            None => None,
        },
    }
}

/// The array body after `[`: empty, or a first entry followed by the rest.
pub open spec fn parse_entries(s: Seq<char>) -> Option<(Seq<TermDef>, Seq<char>)> {
    match expect(s, ']') {
        Some(t) => Some((Seq::empty(), t)),
        None => match parse_entry(s) {
            Some((e, s1)) => match parse_entries_rest(s1) {
                Some((es, s2)) => Some((seq![e] + es, s2)),
                None => None,
            },
            None => None,
        },
    }
}

/// A whole file: the one-field object, with nothing but whitespace after it.
pub open spec fn parse_vocab(s: Seq<char>) -> Option<Seq<TermDef>> {
    match expect(s, '{') {
        Some(s1) => match parse_quoted(s1) {
            Some((k, s2)) => if k == key_words() {
                match expect(s2, ':') {
                    Some(s3) => match expect(s3, '[') {
                        Some(s4) => match parse_entries(s4) {
                            Some((es, s5)) => match expect(s5, '}') {
                                Some(s6) => if skip_ws(s6).len() == 0 {
                                    Some(es)
                                } else {
                                    None
                                },
                                None => None,
                            },
                            None => None,
                        },
                        None => None,
                    },
                    None => None,
                }
            } else {
                None
            },
            None => None,
        },
        None => None,
    }
}

// ---------------------------------------------------------------------------
// How much input each parsing step consumes
// ---------------------------------------------------------------------------
pub proof fn lemma_skip_ws_len(s: Seq<char>)
    ensures
        skip_ws(s).len() <= s.len(),
    decreases s.len(),
{
    if s.len() > 0 && is_ws(s[0]) {
        lemma_skip_ws_len(s.drop_first());
    }
}

pub proof fn lemma_expect_shrinks(s: Seq<char>, c: char)
    ensures
        expect(s, c) matches Some(t) ==> t.len() < s.len(),
{
    lemma_skip_ws_len(s);
}

pub proof fn lemma_body_shrinks(s: Seq<char>)
    ensures
        parse_str_body(s) matches Some(p) ==> p.1.len() < s.len(),
    decreases s.len(),
{
    if s.len() == 0 {
    } else if s[0] == '"' {
    } else if s[0] == '\\' {
        if s.len() >= 2 {
            lemma_body_shrinks(s.skip(2));
        }
    } else {
        lemma_body_shrinks(s.drop_first());
    }
}

pub proof fn lemma_quoted_shrinks(s: Seq<char>)
    ensures
        parse_quoted(s) matches Some(p) ==> p.1.len() < s.len(),
{
    lemma_expect_shrinks(s, '"');
    match expect(s, '"') {
        Some(t) => {
            lemma_body_shrinks(t);
        },
        None => {},
    }
}

pub proof fn lemma_entry_shrinks(s: Seq<char>)
    ensures
        parse_entry(s) matches Some(p) ==> p.1.len() < s.len(),
{
    lemma_expect_shrinks(s, '{');
    match expect(s, '{') {
        Some(s1) => {
            lemma_quoted_shrinks(s1);
            match parse_quoted(s1) {
                Some((k1, s2)) => {
                    lemma_expect_shrinks(s2, ':');
                    match expect(s2, ':') {
                        Some(s3) => {
                            lemma_quoted_shrinks(s3);
                            match parse_quoted(s3) {
                                Some((t, s4)) => {
                                    lemma_expect_shrinks(s4, ',');
                                    match expect(s4, ',') {
                                        Some(s5) => {
                                            lemma_quoted_shrinks(s5);
                                            match parse_quoted(s5) {
                                                Some((k2, s6)) => {
                                                    lemma_expect_shrinks(s6, ':');
                                                    match expect(s6, ':') {
                                                        Some(s7) => {
                                                            lemma_quoted_shrinks(s7);
                                                            match parse_quoted(s7) {
                                                                Some((d, s8)) => {
                                                                    lemma_expect_shrinks(s8, '}');
                                                                },
                                                                None => {},
                                                            }
                                                        },
                                                        None => {},
                                                    }
                                                },
                                                None => {},
                                            }
                                        },
                                        None => {},
                                    }
                                },
                                None => {},
                            }
                        },
                        None => {},
                    }
                },
                None => {},
            }
        },
        None => {},
    }
}

// ---------------------------------------------------------------------------
// Round trip: parsing a serialized vocabulary gives back the value
// ---------------------------------------------------------------------------
/// Every character of `p` is whitespace.
pub open spec fn all_ws(p: Seq<char>) -> bool {
    forall|i: int| 0 <= i < p.len() ==> is_ws(p[i])
}

proof fn lemma_skip_ws_prefix(p: Seq<char>, r: Seq<char>)
    requires
        all_ws(p),
    ensures
        skip_ws(p + r) == skip_ws(r),
    decreases p.len(),
{
    if p.len() == 0 {
        assert(p + r =~= r);
    } else {
        assert((p + r)[0] == p[0]);
        assert((p + r).drop_first() =~= p.drop_first() + r);
        assert forall|i: int| 0 <= i < p.drop_first().len() implies is_ws(p.drop_first()[i]) by {
            assert(p.drop_first()[i] == p[i + 1]);
        }
        lemma_skip_ws_prefix(p.drop_first(), r);
    }
}

/// After whitespace `p`, the exact character `c` is consumed and `r` is left.
proof fn lemma_expect_token(p: Seq<char>, c: char, r: Seq<char>)
    requires
        all_ws(p),
        !is_ws(c),
    ensures
        expect(p + (seq![c] + r), c) == Some(r),
{
    lemma_skip_ws_prefix(p, seq![c] + r);
    assert((seq![c] + r)[0] == c);
    assert(skip_ws(seq![c] + r) == seq![c] + r);
    assert((seq![c] + r).drop_first() =~= r);
}

/// After whitespace `p`, a head character other than `c` makes `expect` fail.
proof fn lemma_expect_other(p: Seq<char>, h: char, r: Seq<char>, c: char)
    requires
        all_ws(p),
        !is_ws(h),
        h != c,
    ensures
        expect(p + (seq![h] + r), c) is None,
{
    lemma_skip_ws_prefix(p, seq![h] + r);
    assert((seq![h] + r)[0] == h);
    assert(skip_ws(seq![h] + r) == seq![h] + r);
}

/// Un-escaping inverts escaping: the body parser applied to an escaped
/// string, its closing quote and any rest returns the original string and
/// that rest.
proof fn lemma_str_body_round_trip(s: Seq<char>, r: Seq<char>)
    ensures
        parse_str_body(esc_str(s) + seq!['"'] + r) == Some((s, r)),
    decreases s.len(),
{
    let inp = esc_str(s) + seq!['"'] + r;
    if s.len() == 0 {
        assert(inp =~= seq!['"'] + r);
        assert(inp[0] == '"');
        assert(inp.drop_first() =~= r);
    } else {
        let c = s[0];
        let e = esc_char(c);
        let tail = esc_str(s.drop_first()) + seq!['"'] + r;
        assert(inp =~= e + tail);
        lemma_str_body_round_trip(s.drop_first(), r);
        if c == '"' || c == '\\' || c == '\n' || c == '\t' || c == '\r' {
            assert(e.len() == 2 && e[0] == '\\');
            assert(inp[0] == '\\');
            assert(inp[1] == e[1]);
            assert(unesc_short(e[1]) == Some(c));
            assert(inp.skip(2) =~= tail);
            assert(seq![c] + s.drop_first() =~= s);
        } else {
            assert(e =~= seq![c]);
            assert(inp[0] == c);
            assert(inp.drop_first() =~= tail);
            assert(seq![c] + s.drop_first() =~= s);
        }
    }
}

/// A serialized quoted string after whitespace parses to the original.
proof fn lemma_quoted_round_trip(p: Seq<char>, s: Seq<char>, r: Seq<char>)
    requires
        all_ws(p),
    ensures
        parse_quoted(p + quoted(s) + r) == Some((s, r)),
{
    let inp = p + quoted(s) + r;
    let after = esc_str(s) + seq!['"'] + r;
    assert(inp =~= p + (seq!['"'] + after));
    lemma_expect_token(p, '"', after);
    lemma_str_body_round_trip(s, r);
}

/// A serialized entry after whitespace parses to its pair.
proof fn lemma_entry_round_trip(p: Seq<char>, t: Seq<char>, d: Seq<char>, r: Seq<char>)
    requires
        all_ws(p),
    ensures
        parse_entry(p + ser_entry(t, d) + r) == Some(((t, d), r)),
{
    let inp = p + ser_entry(t, d) + r;
    let ws1 = p + seq![' ', ' ', ' ', ' '];
    let rest1 = seq!['\n', ' ', ' ', ' ', ' ', ' ', ' '] + quoted(key_term()) + (seq![':', ' ']
        + quoted(t) + (seq![',', '\n', ' ', ' ', ' ', ' ', ' ', ' '] + quoted(key_definition()) + (
    seq![':', ' '] + quoted(d) + (seq!['\n', ' ', ' ', ' ', ' ', '}'] + r))));
    assert(all_ws(ws1));
    assert(inp =~= ws1 + (seq!['{'] + rest1));
    lemma_expect_token(ws1, '{', rest1);

    let ws2 = seq!['\n', ' ', ' ', ' ', ' ', ' ', ' '];
    let rest2 = seq![':', ' '] + quoted(t) + (seq![',', '\n', ' ', ' ', ' ', ' ', ' ', ' ']
        + quoted(key_definition()) + (seq![':', ' '] + quoted(d) + (seq!['\n', ' ', ' ', ' ', ' ',
        '}'] + r)));
    assert(all_ws(ws2));
    assert(rest1 =~= ws2 + quoted(key_term()) + rest2);
    lemma_quoted_round_trip(ws2, key_term(), rest2);

    let rest3 = seq![' '] + quoted(t) + (seq![',', '\n', ' ', ' ', ' ', ' ', ' ', ' '] + quoted(
        key_definition(),
    ) + (seq![':', ' '] + quoted(d) + (seq!['\n', ' ', ' ', ' ', ' ', '}'] + r)));
    assert(rest2 =~= Seq::<char>::empty() + (seq![':'] + rest3));
    assert(all_ws(Seq::<char>::empty()));
    lemma_expect_token(Seq::<char>::empty(), ':', rest3);

    let ws3 = seq![' '];
    let rest4 = seq![',', '\n', ' ', ' ', ' ', ' ', ' ', ' '] + quoted(key_definition()) + (seq![
        ':',
        ' ',
    ] + quoted(d) + (seq!['\n', ' ', ' ', ' ', ' ', '}'] + r));
    assert(all_ws(ws3));
    assert(rest3 =~= ws3 + quoted(t) + rest4);
    lemma_quoted_round_trip(ws3, t, rest4);

    let rest5 = seq!['\n', ' ', ' ', ' ', ' ', ' ', ' '] + quoted(key_definition()) + (seq![
        ':',
        ' ',
    ] + quoted(d) + (seq!['\n', ' ', ' ', ' ', ' ', '}'] + r));
    assert(rest4 =~= Seq::<char>::empty() + (seq![','] + rest5));
    lemma_expect_token(Seq::<char>::empty(), ',', rest5);

    let ws4 = seq!['\n', ' ', ' ', ' ', ' ', ' ', ' '];
    let rest6 = seq![':', ' '] + quoted(d) + (seq!['\n', ' ', ' ', ' ', ' ', '}'] + r);
    assert(all_ws(ws4));
    assert(rest5 =~= ws4 + quoted(key_definition()) + rest6);
    lemma_quoted_round_trip(ws4, key_definition(), rest6);

    let rest7 = seq![' '] + quoted(d) + (seq!['\n', ' ', ' ', ' ', ' ', '}'] + r);
    assert(rest6 =~= Seq::<char>::empty() + (seq![':'] + rest7));
    lemma_expect_token(Seq::<char>::empty(), ':', rest7);

    let ws5 = seq![' '];
    let rest8 = seq!['\n', ' ', ' ', ' ', ' ', '}'] + r;
    assert(all_ws(ws5));
    assert(rest7 =~= ws5 + quoted(d) + rest8);
    lemma_quoted_round_trip(ws5, d, rest8);

    let ws6 = seq!['\n', ' ', ' ', ' ', ' '];
    assert(all_ws(ws6));
    assert(rest8 =~= ws6 + (seq!['}'] + r));
    lemma_expect_token(ws6, '}', r);
}

/// The tail of a serialized entry list parses back to the remaining pairs.
proof fn lemma_rest_round_trip(ms: Seq<TermDef>, r: Seq<char>)
    ensures
        parse_entries_rest(ser_rest(ms) + seq!['\n', ' ', ' ', ']'] + r) == Some((ms, r)),
    decreases ms.len(),
{
    let inp = ser_rest(ms) + seq!['\n', ' ', ' ', ']'] + r;
    if ms.len() == 0 {
        let ws = seq!['\n', ' ', ' '];
        assert(all_ws(ws));
        assert(inp =~= ws + (seq![']'] + r));
        lemma_expect_token(ws, ']', r);
        assert(ms =~= Seq::<TermDef>::empty());
    } else {
        let tail = ms.drop_first();
        let rest1 = seq!['\n'] + ser_entry(ms[0].0, ms[0].1) + (ser_rest(tail) + seq!['\n', ' ',
            ' ', ']'] + r);
        assert(inp =~= Seq::<char>::empty() + (seq![','] + rest1));
        lemma_expect_other(Seq::<char>::empty(), ',', rest1, ']');
        lemma_expect_token(Seq::<char>::empty(), ',', rest1);
        let after = ser_rest(tail) + seq!['\n', ' ', ' ', ']'] + r;
        assert(rest1 =~= seq!['\n'] + ser_entry(ms[0].0, ms[0].1) + after);
        assert(all_ws(seq!['\n']));
        lemma_entry_round_trip(seq!['\n'], ms[0].0, ms[0].1, after);
        lemma_rest_round_trip(tail, r);
        assert(seq![ms[0]] + tail =~= ms);
    }
}

/// A serialized entry array parses back to the pairs.
#[verifier::rlimit(100)]
proof fn lemma_entries_round_trip(m: Seq<TermDef>, r: Seq<char>)
    ensures
        parse_entries(ser_entries(m) + seq![']'] + r) == Some((m, r)),
{
    let inp = ser_entries(m) + seq![']'] + r;
    if m.len() == 0 {
        assert(inp =~= Seq::<char>::empty() + (seq![']'] + r));
        lemma_expect_token(Seq::<char>::empty(), ']', r);
        assert(m =~= Seq::<TermDef>::empty());
    } else {
        let tail = m.drop_first();
        let ws = seq!['\n', ' ', ' ', ' ', ' '];
        let core = seq!['\n', ' ', ' ', ' ', ' ', ' ', ' '] + quoted(key_term()) + (seq![':', ' ']
            + quoted(m[0].0) + (seq![',', '\n', ' ', ' ', ' ', ' ', ' ', ' '] + quoted(
            key_definition(),
        ) + (seq![':', ' '] + quoted(m[0].1) + (seq!['\n', ' ', ' ', ' ', ' ', '}'] + (ser_rest(
            tail,
        ) + seq!['\n', ' ', ' ', ']'] + r)))));
        assert(all_ws(ws));
        assert(inp =~= ws + (seq!['{'] + core));
        lemma_expect_other(ws, '{', core, ']');
        let after = ser_rest(tail) + seq!['\n', ' ', ' ', ']'] + r;
        assert(inp =~= seq!['\n'] + ser_entry(m[0].0, m[0].1) + after);
        assert(all_ws(seq!['\n']));
        lemma_entry_round_trip(seq!['\n'], m[0].0, m[0].1, after);
        lemma_rest_round_trip(tail, r);
        assert(seq![m[0]] + tail =~= m);
    }
}

/// Law: loading a saved vocabulary returns exactly the saved value, for
/// every vocabulary value — in particular for every one with unique terms —
/// and so saving, loading and saving again writes the very same text.
pub proof fn lemma_save_load_round_trip(m: Seq<TermDef>)
    ensures
        parse_vocab(ser_vocab(m)) == Some(m),
        ser_vocab(parse_vocab(ser_vocab(m)).unwrap()) == ser_vocab(m),
{
    let inp = ser_vocab(m);
    let rest1 = seq!['\n', ' ', ' '] + quoted(key_words()) + (seq![':', ' ', '['] + ser_entries(m)
        + (seq![']', '\n', '}']));
    assert(inp =~= Seq::<char>::empty() + (seq!['{'] + rest1));
    assert(all_ws(Seq::<char>::empty()));
    lemma_expect_token(Seq::<char>::empty(), '{', rest1);

    let ws1 = seq!['\n', ' ', ' '];
    let rest2 = seq![':', ' ', '['] + ser_entries(m) + (seq![']', '\n', '}']);
    assert(all_ws(ws1));
    assert(rest1 =~= ws1 + quoted(key_words()) + rest2);
    lemma_quoted_round_trip(ws1, key_words(), rest2);

    let rest3 = seq![' ', '['] + ser_entries(m) + (seq![']', '\n', '}']);
    assert(rest2 =~= Seq::<char>::empty() + (seq![':'] + rest3));
    lemma_expect_token(Seq::<char>::empty(), ':', rest3);

    let ws2 = seq![' '];
    let rest4 = ser_entries(m) + (seq![']', '\n', '}']);
    assert(all_ws(ws2));
    assert(rest3 =~= ws2 + (seq!['['] + rest4));
    lemma_expect_token(ws2, '[', rest4);

    assert(rest4 =~= ser_entries(m) + seq![']'] + seq!['\n', '}']);
    lemma_entries_round_trip(m, seq!['\n', '}']);

    let ws3 = seq!['\n'];
    assert(all_ws(ws3));
    assert(seq!['\n', '}'] =~= ws3 + (seq!['}'] + Seq::<char>::empty()));
    lemma_expect_token(ws3, '}', Seq::<char>::empty());
    assert(skip_ws(Seq::<char>::empty()).len() == 0);
}

/// Law: adding any pairs with pairwise-distinct terms, in order, to the
/// empty vocabulary gives exactly those pairs in insertion order, keeps the
/// terms distinct, and the value survives saving and loading unchanged — a
/// listing after persistence and reload shows exactly the added terms with
/// their given definitions, in insertion order.
pub proof fn lemma_adds_persist_in_order(ops: Seq<TermDef>)
    requires
        crate::store::distinct_terms(ops),
    ensures
        crate::store::add_all(Seq::empty(), ops) == ops,
        crate::store::distinct_terms(crate::store::add_all(Seq::empty(), ops)),
        parse_vocab(ser_vocab(ops)) == Some(ops),
{
    crate::store::lemma_add_all_appends(Seq::empty(), ops);
    assert(Seq::empty() + ops =~= ops);
    lemma_save_load_round_trip(ops);
}

// ---------------------------------------------------------------------------
// Executable serializer
// ---------------------------------------------------------------------------
proof fn lemma_esc_str_snoc(s: Seq<char>, c: char)
    ensures
        esc_str(s.push(c)) == esc_str(s) + esc_char(c),
    decreases s.len(),
{
    if s.len() == 0 {
        assert(s.push(c)[0] == c);
        assert(s.push(c).drop_first() =~= Seq::<char>::empty());
        assert(esc_char(c) + esc_str(Seq::empty()) =~= esc_char(c));
        assert(esc_str(s) + esc_char(c) =~= esc_char(c));
    } else {
        assert(s.push(c)[0] == s[0]);
        assert(s.push(c).drop_first() =~= s.drop_first().push(c));
        lemma_esc_str_snoc(s.drop_first(), c);
        assert(esc_char(s[0]) + (esc_str(s.drop_first()) + esc_char(c)) =~= (esc_char(s[0])
            + esc_str(s.drop_first())) + esc_char(c));
    }
}

proof fn lemma_ser_rest_snoc(m: Seq<TermDef>, e: TermDef)
    ensures
        ser_rest(m.push(e)) == ser_rest(m) + (seq![',', '\n'] + ser_entry(e.0, e.1)),
    decreases m.len(),
{
    let piece = seq![',', '\n'] + ser_entry(e.0, e.1);
    if m.len() == 0 {
        assert(m.push(e)[0] == e);
        assert(m.push(e).drop_first() =~= Seq::<TermDef>::empty());
        assert(seq![',', '\n'] + ser_entry(e.0, e.1) + ser_rest(Seq::empty()) =~= piece);
        assert(ser_rest(m) + piece =~= piece);
    } else {
        assert(m.push(e)[0] == m[0]);
        assert(m.push(e).drop_first() =~= m.drop_first().push(e));
        lemma_ser_rest_snoc(m.drop_first(), e);
        let head = seq![',', '\n'] + ser_entry(m[0].0, m[0].1);
        assert(head + (ser_rest(m.drop_first()) + piece) =~= (head + ser_rest(m.drop_first()))
            + piece);
    }
}

/// Characters whose escape is themselves pass through `esc_str` unchanged.
proof fn lemma_esc_str_plain(s: Seq<char>)
    requires
        forall|i: int|
            0 <= i < s.len() ==> !(s[i] == '"' || s[i] == '\\' || s[i] == '\n' || s[i] == '\t'
                || s[i] == '\r'),
    ensures
        esc_str(s) == s,
    decreases s.len(),
{
    if s.len() > 0 {
        assert forall|i: int| 0 <= i < s.drop_first().len() implies !(s.drop_first()[i] == '"'
            || s.drop_first()[i] == '\\' || s.drop_first()[i] == '\n' || s.drop_first()[i] == '\t'
            || s.drop_first()[i] == '\r') by {
            assert(s.drop_first()[i] == s[i + 1]);
        }
        lemma_esc_str_plain(s.drop_first());
        assert(esc_char(s[0]) =~= seq![s[0]]);
        assert(seq![s[0]] + s.drop_first() =~= s);
    }
}

/// Append the escaped form of `s` to `out`.
fn push_esc(out: &mut Vec<char>, s: &Vec<char>)
    ensures
        final(out)@ == old(out)@ + esc_str(s@),
{
    let mut i: usize = 0;
    proof {
        assert(s@.take(0) =~= Seq::<char>::empty());
        assert(old(out)@ + esc_str(s@.take(0)) =~= old(out)@);
    }
    while i < s.len()
        invariant
            i <= s.len(),
            out@ == old(out)@ + esc_str(s@.take(i as int)),
        decreases s.len() - i,
    {
        let c = s[i];
        if c == '"' {
            out.push('\\');
            out.push('"');
        } else if c == '\\' {
            out.push('\\');
            out.push('\\');
        } else if c == '\n' {
            out.push('\\');
            out.push('n');
        } else if c == '\t' {
            out.push('\\');
            out.push('t');
        } else if c == '\r' {
            out.push('\\');
            out.push('r');
        } else {
            out.push(c);
        }
        proof {
            lemma_esc_str_snoc(s@.take(i as int), c);
            assert(s@.take(i as int).push(c) =~= s@.take(i as int + 1));
            assert(out@ =~= old(out)@ + esc_str(s@.take(i as int + 1)));
        }
        i += 1;
    }
    proof {
        assert(s@.take(s@.len() as int) =~= s@);
    }
}

/// Append the quoted, escaped form of `s` to `out`.
fn push_quoted(out: &mut Vec<char>, s: &Vec<char>)
    ensures
        final(out)@ == old(out)@ + quoted(s@),
{
    out.push('"');
    push_esc(out, s);
    out.push('"');
    proof {
        assert(out@ =~= old(out)@ + quoted(s@));
    }
}

/// Append one serialized entry to `out`.
#[verifier::rlimit(60)]
fn push_entry(out: &mut Vec<char>, t: &Vec<char>, d: &Vec<char>)
    ensures
        final(out)@ == old(out)@ + ser_entry(t@, d@),
{
    out.push(' ');
    out.push(' ');
    out.push(' ');
    out.push(' ');
    out.push('{');
    out.push('\n');
    out.push(' ');
    out.push(' ');
    out.push(' ');
    out.push(' ');
    out.push(' ');
    out.push(' ');
    out.push('"');
    out.push('t');
    out.push('e');
    out.push('r');
    out.push('m');
    out.push('"');
    out.push(':');
    out.push(' ');
    push_quoted(out, t);
    out.push(',');
    out.push('\n');
    out.push(' ');
    out.push(' ');
    out.push(' ');
    out.push(' ');
    out.push(' ');
    out.push(' ');
    out.push('"');
    out.push('d');
    out.push('e');
    out.push('f');
    out.push('i');
    out.push('n');
    out.push('i');
    out.push('t');
    out.push('i');
    out.push('o');
    out.push('n');
    out.push('"');
    out.push(':');
    out.push(' ');
    push_quoted(out, d);
    out.push('\n');
    out.push(' ');
    out.push(' ');
    out.push(' ');
    out.push(' ');
    out.push('}');
    proof {
        lemma_esc_str_plain(key_term());
        lemma_esc_str_plain(key_definition());
        assert(quoted(key_term()) =~= seq!['"', 't', 'e', 'r', 'm', '"']);
        assert(quoted(key_definition()) =~= seq![
            '"',
            'd',
            'e',
            'f',
            'i',
            'n',
            'i',
            't',
            'i',
            'o',
            'n',
            '"',
        ]);
        assert(out@ =~= old(out)@ + ser_entry(t@, d@));
    }
}

/// The file text for `v`: the serialized form of its value, exactly
/// [`ser_vocab`] of the model.
#[verifier::rlimit(100)]
pub fn serialize_vocabulary(v: &Vocabulary) -> (r: String)
    ensures
        r@ == ser_vocab(v.model()),
{
    let mut out: Vec<char> = Vec::new();
    out.push('{');
    out.push('\n');
    out.push(' ');
    out.push(' ');
    out.push('"');
    out.push('w');
    out.push('o');
    out.push('r');
    out.push('d');
    out.push('s');
    out.push('"');
    out.push(':');
    out.push(' ');
    out.push('[');
    proof {
        lemma_esc_str_plain(key_words());
        assert(quoted(key_words()) =~= seq!['"', 'w', 'o', 'r', 'd', 's', '"']);
        assert(out@ =~= ser_header());
    }
    if v.words.len() > 0 {
        out.push('\n');
        let t0 = crate::text::str_chars(v.words[0].term.as_str());
        let d0 = crate::text::str_chars(v.words[0].definition.as_str());
        push_entry(&mut out, &t0, &d0);
        proof {
            assert(v.model()[0] == (v.words@[0].term@, v.words@[0].definition@));
            assert(v.model().subrange(1, 1) =~= Seq::<TermDef>::empty());
            assert(out@ =~= ser_header() + seq!['\n'] + ser_entry(v.model()[0].0, v.model()[0].1)
                + ser_rest(v.model().subrange(1, 1)));
        }
        let mut i: usize = 1;
        while i < v.words.len()
            invariant
                1 <= i <= v.words.len(),
                v.model().len() == v.words.len(),
                out@ == ser_header() + seq!['\n'] + ser_entry(v.model()[0].0, v.model()[0].1)
                    + ser_rest(v.model().subrange(1, i as int)),
            decreases v.words.len() - i,
        {
            out.push(',');
            out.push('\n');
            let t = crate::text::str_chars(v.words[i].term.as_str());
            let d = crate::text::str_chars(v.words[i].definition.as_str());
            push_entry(&mut out, &t, &d);
            proof {
                assert(v.model()[i as int] == (v.words@[i as int].term@, v.words@[
                    i as int].definition@));
                lemma_ser_rest_snoc(v.model().subrange(1, i as int), v.model()[i as int]);
                assert(v.model().subrange(1, i as int).push(v.model()[i as int]) =~= v.model()
                    .subrange(1, i as int + 1));
                assert(out@ =~= ser_header() + seq!['\n'] + ser_entry(
                    v.model()[0].0,
                    v.model()[0].1,
                ) + ser_rest(v.model().subrange(1, i as int + 1)));
            }
            i += 1;
        }
        out.push('\n');
        out.push(' ');
        out.push(' ');
        proof {
            assert(v.model().subrange(1, v.model().len() as int) =~= v.model().drop_first());
            assert(out@ =~= ser_header() + ser_entries(v.model()));
        }
    } else {
        proof {
            assert(out@ =~= ser_header() + ser_entries(v.model()));
        }
    }
    out.push(']');
    out.push('\n');
    out.push('}');
    proof {
        assert(out@ =~= ser_vocab(v.model()));
    }
    crate::text::chars_to_string(&out)
}

// ---------------------------------------------------------------------------
// Executable parser
// ---------------------------------------------------------------------------
fn skip_ws_exec(v: &Vec<char>, i: usize) -> (j: usize)
    requires
        i <= v.len(),
    ensures
        i <= j <= v.len(),
        v@.skip(j as int) == skip_ws(v@.skip(i as int)),
{
    let mut j = i;
    while j < v.len() && crate::text::is_ws_char(v[j])
        invariant
            i <= j <= v.len(),
            skip_ws(v@.skip(i as int)) == skip_ws(v@.skip(j as int)),
        decreases v.len() - j,
    {
        proof {
            assert(v@.skip(j as int)[0] == v@[j as int]);
            assert(v@.skip(j as int).drop_first() =~= v@.skip(j as int + 1));
        }
        j += 1;
    }
    proof {
        if j < v.len() {
            assert(v@.skip(j as int)[0] == v@[j as int]);
            assert(skip_ws(v@.skip(j as int)) == v@.skip(j as int));
        } else {
            assert(v@.skip(j as int) =~= Seq::<char>::empty());
        }
    }
    j
}

fn expect_exec(v: &Vec<char>, i: usize, c: char) -> (r: Option<usize>)
    requires
        i <= v.len(),
    ensures
        (match r {
            Some(j) => j <= v.len() && expect(v@.skip(i as int), c) == Some(v@.skip(j as int)),
            None => expect(v@.skip(i as int), c) is None,
        }),
{
    let j = skip_ws_exec(v, i);
    if j < v.len() && v[j] == c {
        proof {
            assert(v@.skip(j as int)[0] == v@[j as int]);
            assert(v@.skip(j as int).drop_first() =~= v@.skip(j as int + 1));
        }
        Some(j + 1)
    } else {
        proof {
            if j < v.len() {
                assert(v@.skip(j as int)[0] == v@[j as int]);
            }
        }
        None
    }
}

fn unesc_short_exec(c: char) -> (r: Option<char>)
    ensures
        r == unesc_short(c),
{
    if c == '"' {
        Some('"')
    } else if c == '\\' {
        Some('\\')
    } else if c == '/' {
        Some('/')
    } else if c == 'n' {
        Some('\n')
    } else if c == 't' {
        Some('\t')
    } else if c == 'r' {
        Some('\r')
    } else if c == 'b' {
        Some('\u{8}')
    } else if c == 'f' {
        Some('\u{c}')
    } else {
        None
    }
}

fn parse_str_body_exec(v: &Vec<char>, i: usize) -> (r: Option<(Vec<char>, usize)>)
    requires
        i <= v.len(),
    ensures
        (match r {
            Some(p) => p.1 <= v.len() && parse_str_body(v@.skip(i as int)) == Some(
                (p.0@, v@.skip(p.1 as int)),
            ),
            None => parse_str_body(v@.skip(i as int)) is None,
        }),
{
    let mut out: Vec<char> = Vec::new();
    let mut j = i;
    proof {
        match parse_str_body(v@.skip(i as int)) {
            Some(p) => {
                assert(Seq::<char>::empty() + p.0 =~= p.0);
            },
            None => {},
        }
    }
    loop
        invariant
            i <= j <= v.len(),
            (match parse_str_body(v@.skip(j as int)) {
                Some(p) => parse_str_body(v@.skip(i as int)) == Some((out@ + p.0, p.1)),
                None => parse_str_body(v@.skip(i as int)) is None,
            }),
        decreases v.len() - j,
    {
        if j >= v.len() {
            proof {
                assert(v@.skip(j as int) =~= Seq::<char>::empty());
            }
            return None;
        }
        let c = v[j];
        proof {
            assert(v@.skip(j as int)[0] == c);
        }
        if c == '"' {
            proof {
                assert(v@.skip(j as int).drop_first() =~= v@.skip(j as int + 1));
                assert(out@ + Seq::<char>::empty() =~= out@);
            }
            return Some((out, j + 1));
        } else if c == '\\' {
            if j + 1 >= v.len() {
                return None;
            }
            let e = v[j + 1];
            proof {
                assert(v@.skip(j as int)[1] == e);
            }
            match unesc_short_exec(e) {
                None => {
                    return None;
                },
                Some(cc) => {
                    let ghost ob = out@;
                    out.push(cc);
                    proof {
                        assert(v@.skip(j as int).skip(2) =~= v@.skip(j as int + 2));
                        match parse_str_body(v@.skip(j as int + 2)) {
                            Some(p) => {
                                assert(ob + (seq![cc] + p.0) =~= out@ + p.0);
                            },
                            None => {},
                        }
                    }
                    j += 2;
                },
            }
        } else {
            let ghost ob = out@;
            out.push(c);
            proof {
                assert(v@.skip(j as int).drop_first() =~= v@.skip(j as int + 1));
                match parse_str_body(v@.skip(j as int + 1)) {
                    Some(p) => {
                        assert(ob + (seq![c] + p.0) =~= out@ + p.0);
                    },
                    None => {},
                }
            }
            j += 1;
        }
    }
}

fn parse_quoted_exec(v: &Vec<char>, i: usize) -> (r: Option<(Vec<char>, usize)>)
    requires
        i <= v.len(),
    ensures
        (match r {
            Some(p) => p.1 <= v.len() && parse_quoted(v@.skip(i as int)) == Some(
                (p.0@, v@.skip(p.1 as int)),
            ),
            None => parse_quoted(v@.skip(i as int)) is None,
        }),
{
    match expect_exec(v, i, '"') {
        Some(j) => parse_str_body_exec(v, j),
        None => None,
    }
}

fn is_key_term(k: &Vec<char>) -> (r: bool)
    ensures
        r == (k@ == key_term()),
{
    if k.len() == 4 {
        let r = k[0] == 't' && k[1] == 'e' && k[2] == 'r' && k[3] == 'm';
        proof {
            if r {
                assert(k@ =~= key_term());
            }
        }
        r
    } else {
        false
    }
}

fn is_key_definition(k: &Vec<char>) -> (r: bool)
    ensures
        r == (k@ == key_definition()),
{
    if k.len() == 10 {
        let r = k[0] == 'd' && k[1] == 'e' && k[2] == 'f' && k[3] == 'i' && k[4] == 'n' && k[5]
            == 'i' && k[6] == 't' && k[7] == 'i' && k[8] == 'o' && k[9] == 'n';
        proof {
            if r {
                assert(k@ =~= key_definition());
            }
        }
        r
    } else {
        false
    }
}

fn is_key_words(k: &Vec<char>) -> (r: bool)
    ensures
        r == (k@ == key_words()),
{
    if k.len() == 5 {
        let r = k[0] == 'w' && k[1] == 'o' && k[2] == 'r' && k[3] == 'd' && k[4] == 's';
        proof {
            if r {
                assert(k@ =~= key_words());
            }
        }
        r
    } else {
        false
    }
}

fn parse_entry_exec(v: &Vec<char>, i: usize) -> (r: Option<(Vec<char>, Vec<char>, usize)>)
    requires
        i <= v.len(),
    ensures
        (match r {
            Some((t, d, j)) => j <= v.len() && parse_entry(v@.skip(i as int)) == Some(
                ((t@, d@), v@.skip(j as int)),
            ),
            None => parse_entry(v@.skip(i as int)) is None,
        }),
{
    let s1 = match expect_exec(v, i, '{') {
        Some(j) => j,
        None => {
            return None;
        },
    };
    let (k1, s2) = match parse_quoted_exec(v, s1) {
        Some(p) => p,
        None => {
            return None;
        },
    };
    if !is_key_term(&k1) {
        return None;
    }
    let s3 = match expect_exec(v, s2, ':') {
        Some(j) => j,
        None => {
            return None;
        },
    };
    let (t, s4) = match parse_quoted_exec(v, s3) {
        Some(p) => p,
        None => {
            return None;
        },
    };
    let s5 = match expect_exec(v, s4, ',') {
        Some(j) => j,
        None => {
            return None;
        },
    };
    let (k2, s6) = match parse_quoted_exec(v, s5) {
        Some(p) => p,
        None => {
            return None;
        },
    };
    if !is_key_definition(&k2) {
        return None;
    }
    let s7 = match expect_exec(v, s6, ':') {
        Some(j) => j,
        None => {
            return None;
        },
    };
    let (d, s8) = match parse_quoted_exec(v, s7) {
        Some(p) => p,
        None => {
            return None;
        },
    };
    let s9 = match expect_exec(v, s8, '}') {
        Some(j) => j,
        None => {
            return None;
        },
    };
    Some((t, d, s9))
}

/// The model of a vector of entries.
pub open spec fn entries_model(es: Seq<crate::store::Entry>) -> Seq<TermDef> {
    es.map_values(|e: crate::store::Entry| (e.term@, e.definition@))
}

fn entry_from_chars(t: &Vec<char>, d: &Vec<char>) -> (e: crate::store::Entry)
    ensures
        e.term@ == t@,
        e.definition@ == d@,
{
    crate::store::Entry {
        term: crate::text::chars_to_string(t),
        definition: crate::text::chars_to_string(d),
    }
}

fn parse_entries_exec(v: &Vec<char>, i: usize) -> (r: Option<(Vec<crate::store::Entry>, usize)>)
    requires
        i <= v.len(),
    ensures
        (match r {
            Some(p) => p.1 <= v.len() && parse_entries(v@.skip(i as int)) == Some(
                (entries_model(p.0@), v@.skip(p.1 as int)),
            ),
            None => parse_entries(v@.skip(i as int)) is None,
        }),
{
    match expect_exec(v, i, ']') {
        Some(j) => {
            let es: Vec<crate::store::Entry> = Vec::new();
            proof {
                assert(entries_model(es@) =~= Seq::<TermDef>::empty());
            }
            return Some((es, j));
        },
        None => {},
    }
    let (t0, d0, mut cur) = match parse_entry_exec(v, i) {
        Some(p) => p,
        None => {
            return None;
        },
    };
    let mut es: Vec<crate::store::Entry> = Vec::new();
    es.push(entry_from_chars(&t0, &d0));
    proof {
        match parse_entries_rest(v@.skip(cur as int)) {
            Some(p) => {
                assert(entries_model(es@) + p.0 =~= seq![(t0@, d0@)] + p.0);
            },
            None => {},
        }
    }
    loop
        invariant
            cur <= v.len(),
            (match parse_entries_rest(v@.skip(cur as int)) {
                Some(p) => parse_entries(v@.skip(i as int)) == Some((entries_model(es@) + p.0, p.1)),
                None => parse_entries(v@.skip(i as int)) is None,
            }),
        decreases v.len() - cur,
    {
        match expect_exec(v, cur, ']') {
            Some(j) => {
                proof {
                    assert(entries_model(es@) + Seq::<TermDef>::empty() =~= entries_model(es@));
                }
                return Some((es, j));
            },
            None => {},
        }
        let j3 = match expect_exec(v, cur, ',') {
            Some(j) => j,
            None => {
                return None;
            },
        };
        let (t, d, j4) = match parse_entry_exec(v, j3) {
            Some(p) => p,
            None => {
                return None;
            },
        };
        proof {
            lemma_expect_shrinks(v@.skip(cur as int), ',');
            lemma_entry_shrinks(v@.skip(j3 as int));
        }
        let ghost eb = es@;
        es.push(entry_from_chars(&t, &d));
        proof {
            match parse_entries_rest(v@.skip(j4 as int)) {
                Some(p) => {
                    assert(entries_model(eb) + (seq![(t@, d@)] + p.0) =~= entries_model(es@) + p.0);
                },
                None => {},
            }
        }
        cur = j4;
    }
}

/// The vocabulary read from `text`, or `None` when `text` is not a
/// serialized vocabulary — exactly [`parse_vocab`] of the text.
pub fn parse_vocabulary(text: &str) -> (r: Option<Vocabulary>)
    ensures
        (match r {
            Some(v) => parse_vocab(text@) == Some(v.model()),
            None => parse_vocab(text@) is None,
        }),
{
    let v = crate::text::str_chars(text);
    proof {
        assert(v@.skip(0) =~= text@);
    }
    let s1 = match expect_exec(&v, 0, '{') {
        Some(j) => j,
        None => {
            return None;
        },
    };
    let (k, s2) = match parse_quoted_exec(&v, s1) {
        Some(p) => p,
        None => {
            return None;
        },
    };
    if !is_key_words(&k) {
        return None;
    }
    let s3 = match expect_exec(&v, s2, ':') {
        Some(j) => j,
        None => {
            return None;
        },
    };
    let s4 = match expect_exec(&v, s3, '[') {
        Some(j) => j,
        None => {
            return None;
        },
    };
    let (es, s5) = match parse_entries_exec(&v, s4) {
        Some(p) => p,
        None => {
            return None;
        },
    };
    let s6 = match expect_exec(&v, s5, '}') {
        Some(j) => j,
        None => {
            return None;
        },
    };
    let e = skip_ws_exec(&v, s6);
    if e < v.len() {
        proof {
            assert(skip_ws(v@.skip(s6 as int)).len() == v.len() - e);
        }
        return None;
    }
    proof {
        assert(v@.skip(e as int) =~= Seq::<char>::empty());
    }
    let voc = Vocabulary { words: es };
    proof {
        assert(voc.model() =~= entries_model(es@));
    }
    Some(voc)
}

} // verus!
