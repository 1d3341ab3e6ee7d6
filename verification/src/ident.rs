//! The raw-identifier grammar and the matching escaping routine.
//!
//! An identifier token has three source forms:
//! - a bare word: one or more word characters (ASCII letters, digits, `_`);
//! - a backtick-quoted form: `` ` ``, then any characters with `\` escaping
//!   the character that follows it, then a closing `` ` ``;
//! - a bracket-quoted form: `⟨`, then any characters other than `⟩`, then `⟩`.
//!
//! Quoted forms with empty content are rejected: an identifier's logical
//! text is never empty. The logical text of a token is its unescaped
//! content; `escape_ident` renders a logical text back to a source form
//! that re-parses to the same text.

use vstd::prelude::*;
use vstd::string::*;

use crate::err::{IResult, ParseError};

verus! {

/// The opening bracket glyph of the bracket-quoted form.
pub open spec fn bracket_open() -> char {
    '\u{27e8}'
}

/// The closing bracket glyph of the bracket-quoted form.
pub open spec fn bracket_close() -> char {
    '\u{27e9}'
}

/// A raw identifier the grammar accepted: its unescaped logical text.
pub struct Ident(pub String);

/// Word characters form bare (unquoted) identifiers.
pub open spec fn is_word_char(c: char) -> bool {
    ('a' <= c && c <= 'z') || ('A' <= c && c <= 'Z') || ('0' <= c && c <= '9') || c == '_'
}

fn word_char(c: char) -> (r: bool)
    ensures
        r == is_word_char(c),
{
    ('a' <= c && c <= 'z') || ('A' <= c && c <= 'Z') || ('0' <= c && c <= '9') || c == '_'
}

pub open spec fn all_word_chars(s: Seq<char>) -> bool {
    forall|j: int| 0 <= j < s.len() ==> is_word_char(#[trigger] s[j])
}

/// Length of the longest prefix of `s` made of word characters.
pub open spec fn word_len(s: Seq<char>) -> nat
    decreases s.len(),
{
    if s.len() == 0 || !is_word_char(s[0]) {
        0
    } else {
        (1 + word_len(s.skip(1))) as nat
    }
}

proof fn lemma_word_len_le(s: Seq<char>)
    ensures
        word_len(s) <= s.len(),
    decreases s.len(),
{
    if s.len() != 0 && is_word_char(s[0]) {
        lemma_word_len_le(s.skip(1));
    }
}

/// The word prefix ends exactly at the first non-word character.
proof fn lemma_word_len_at(s: Seq<char>, k: int)
    requires
        0 <= k <= s.len(),
        forall|j: int| 0 <= j < k ==> is_word_char(#[trigger] s[j]),
        k == s.len() || !is_word_char(s[k]),
    ensures
        word_len(s) == k,
    decreases k,
{
    if k == 0 {
    } else {
        assert(is_word_char(s[0]));
        assert forall|j: int| 0 <= j < k - 1 implies is_word_char(#[trigger] s.skip(1)[j]) by {
            assert(s.skip(1)[j] == s[j + 1]);
        }
        if k - 1 < s.skip(1).len() {
            assert(s.skip(1)[k - 1] == s[k]);
        }
        lemma_word_len_at(s.skip(1), k - 1);
    }
}

/// Content of a backtick-quoted identifier, read after the opening backtick:
/// the unescaped text together with the number of characters consumed,
/// the closing backtick included. `None` on an unterminated form.
pub open spec fn bt_body(s: Seq<char>) -> Option<(Seq<char>, nat)>
    decreases s.len(),
{
    if s.len() == 0 {
        None
    } else if s[0] == '`' {
        Some((Seq::empty(), 1nat))
    } else if s[0] == '\\' {
        if s.len() == 1 {
            None
        } else {
            match bt_body(s.skip(2)) {
                None => None,
                Some((nm, c)) => Some((seq![s[1]] + nm, (2 + c) as nat)),
            }
        }
    } else {
        match bt_body(s.skip(1)) {
            None => None,
            Some((nm, c)) => Some((seq![s[0]] + nm, (1 + c) as nat)),
        }
    }
}

proof fn lemma_bt_body_bounds(s: Seq<char>)
    ensures
        bt_body(s) matches Some((nm, c)) ==> 1 <= c <= s.len(),
    decreases s.len(),
{
    if s.len() == 0 {
    } else if s[0] == '`' {
    } else if s[0] == '\\' {
        if s.len() > 1 {
            lemma_bt_body_bounds(s.skip(2));
        }
    } else {
        lemma_bt_body_bounds(s.skip(1));
    }
}

/// Content of a bracket-quoted identifier, read after the opening bracket:
/// the text up to the closing bracket together with the number of characters
/// consumed, the closing bracket included. `None` on an unterminated form.
pub open spec fn bracket_body(s: Seq<char>) -> Option<(Seq<char>, nat)>
    decreases s.len(),
{
    if s.len() == 0 {
        None
    } else if s[0] == bracket_close() {
        Some((Seq::empty(), 1nat))
    } else {
        match bracket_body(s.skip(1)) {
            None => None,
            Some((nm, c)) => Some((seq![s[0]] + nm, (1 + c) as nat)),
        }
    }
}

proof fn lemma_bracket_body_bounds(s: Seq<char>)
    ensures
        bracket_body(s) matches Some((nm, c)) ==> 1 <= c <= s.len(),
    decreases s.len(),
{
    if s.len() != 0 && s[0] != bracket_close() {
        lemma_bracket_body_bounds(s.skip(1));
    }
}

/// What parsing one identifier from `s` yields: the logical text together
/// with the number of characters consumed, or `None` when `s` does not
/// start with an identifier token.
pub open spec fn ident_spec(s: Seq<char>) -> Option<(Seq<char>, nat)> {
    if s.len() == 0 {
        None
    } else if s[0] == '`' {
        match bt_body(s.skip(1)) {
            None => None,
            Some((nm, c)) => if nm.len() == 0 {
                None
            } else {
                Some((nm, (1 + c) as nat))
            },
        }
    } else if s[0] == bracket_open() {
        match bracket_body(s.skip(1)) {
            None => None,
            Some((nm, c)) => if nm.len() == 0 {
                None
            } else {
                Some((nm, (1 + c) as nat))
            },
        }
    } else if is_word_char(s[0]) {
        Some((s.take(word_len(s) as int), word_len(s)))
    } else {
        None
    }
}

/// A parsed identifier consumed at least one character, no more than there
/// were, and its logical text is not empty.
pub proof fn lemma_ident_bounds(s: Seq<char>)
    ensures
        ident_spec(s) matches Some((nm, c)) ==> 1 <= c <= s.len() && nm.len() >= 1,
{
    if s.len() != 0 {
        if s[0] == '`' {
            lemma_bt_body_bounds(s.skip(1));
        } else if s[0] == bracket_open() {
            lemma_bracket_body_bounds(s.skip(1));
        } else if is_word_char(s[0]) {
            lemma_word_len_le(s);
            assert(word_len(s) >= 1);
        }
    }
}

/// Parse one raw identifier from the front of `i`: on success the unconsumed
/// remainder and the unescaped logical text, on failure the text that could
/// not be matched.
pub fn ident_raw<'a>(i: &'a str) -> (r: IResult<'a, String>)
    ensures
        match ident_spec(i@) {
            Some((nm, c)) => r matches Ok((rest, v)) && rest@ == i@.skip(c as int) && v@ == nm,
            None => r matches Err(e) && e.0@ == i@,
        },
{
    let n = i.unicode_len();
    if n == 0 {
        return Err(ParseError(i));
    }
    let c0 = i.get_char(0);
    if c0 == '`' {
        ident_backtick(i, n)
    } else if c0 == '\u{27e8}' {
        ident_bracket(i, n)
    } else if word_char(c0) {
        ident_bare(i, n)
    } else {
        Err(ParseError(i))
    }
}

/// The bare-word form: the longest nonempty prefix of word characters.
fn ident_bare<'a>(i: &'a str, n: usize) -> (r: IResult<'a, String>)
    requires
        n == i@.len(),
        i@.len() > 0,
        is_word_char(i@[0]),
    ensures
        match ident_spec(i@) {
            Some((nm, c)) => r matches Ok((rest, v)) && rest@ == i@.skip(c as int) && v@ == nm,
            None => r matches Err(e) && e.0@ == i@,
        },
{
    let mut pos: usize = 1;
    while pos < n && word_char(i.get_char(pos))
        invariant
            1 <= pos <= n,
            n == i@.len(),
            forall|j: int| 0 <= j < pos ==> is_word_char(#[trigger] i@[j]),
        decreases n - pos,
    {
        pos = pos + 1;
    }
    proof {
        lemma_word_len_at(i@, pos as int);
    }
    let rest = i.substring_char(pos, n);
    let v = i.substring_char(0, pos).to_owned();
    proof {
        assert(rest@ =~= i@.skip(pos as int));
        assert(v@ =~= i@.take(word_len(i@) as int));
    }
    Ok((rest, v))
}

/// The backtick-quoted form: a backslash escapes the character after it.
fn ident_backtick<'a>(i: &'a str, n: usize) -> (r: IResult<'a, String>)
    requires
        n == i@.len(),
        i@.len() > 0,
        i@[0] == '`',
    ensures
        match ident_spec(i@) {
            Some((nm, c)) => r matches Ok((rest, v)) && rest@ == i@.skip(c as int) && v@ == nm,
            None => r matches Err(e) && e.0@ == i@,
        },
{
    let mut pos: usize = 1;
    let mut out = String::new();
    loop
        invariant
            1 <= pos <= n,
            n == i@.len(),
            i@[0] == '`',
            match bt_body(i@.skip(pos as int)) {
                None => bt_body(i@.skip(1)) is None,
                Some((nm, c)) => bt_body(i@.skip(1)) == Some(
                    (out@ + nm, ((pos - 1) + c) as nat),
                ),
            },
        decreases n - pos,
    {
        if pos >= n {
            assert(i@.skip(pos as int).len() == 0);
            return Err(ParseError(i));
        }
        let c = i.get_char(pos);
        proof {
            assert(i@.skip(pos as int)[0] == i@[pos as int]);
        }
        if c == '`' {
            proof {
                assert(bt_body(i@.skip(pos as int)) == Some((Seq::<char>::empty(), 1nat)));
                assert(out@ + Seq::<char>::empty() =~= out@);
            }
            if out.as_str().is_empty() {
                return Err(ParseError(i));
            }
            let rest = i.substring_char(pos + 1, n);
            proof {
                assert(rest@ =~= i@.skip(1 + pos as int));
            }
            return Ok((rest, out));
        } else if c == '\\' {
            if pos + 1 >= n {
                proof {
                    assert(i@.skip(pos as int).len() == 1);
                    assert(bt_body(i@.skip(pos as int)) is None);
                }
                return Err(ParseError(i));
            }
            let ghost out0 = out@;
            out.append(i.substring_char(pos + 1, pos + 2));
            proof {
                assert(i@.skip(pos as int)[1] == i@[pos as int + 1]);
                assert(i@.skip(pos as int).skip(2) =~= i@.skip(pos as int + 2));
                assert(out@ =~= out0 + seq![i@[pos as int + 1]]);
                if let Some((nm, c)) = bt_body(i@.skip(pos as int + 2)) {
                    assert(out@ + nm =~= out0 + (seq![i@[pos as int + 1]] + nm));
                }
            }
            pos = pos + 2;
        } else {
            let ghost out0 = out@;
            out.append(i.substring_char(pos, pos + 1));
            proof {
                assert(i@.skip(pos as int).skip(1) =~= i@.skip(pos as int + 1));
                assert(out@ =~= out0 + seq![i@[pos as int]]);
                if let Some((nm, c)) = bt_body(i@.skip(pos as int + 1)) {
                    assert(out@ + nm =~= out0 + (seq![i@[pos as int]] + nm));
                }
            }
            pos = pos + 1;
        }
    }
}

/// The bracket-quoted form: everything up to the closing bracket, verbatim.
fn ident_bracket<'a>(i: &'a str, n: usize) -> (r: IResult<'a, String>)
    requires
        n == i@.len(),
        i@.len() > 0,
        i@[0] == bracket_open(),
    ensures
        match ident_spec(i@) {
            Some((nm, c)) => r matches Ok((rest, v)) && rest@ == i@.skip(c as int) && v@ == nm,
            None => r matches Err(e) && e.0@ == i@,
        },
{
    let mut pos: usize = 1;
    let mut out = String::new();
    loop
        invariant
            1 <= pos <= n,
            n == i@.len(),
            i@[0] == bracket_open(),
            match bracket_body(i@.skip(pos as int)) {
                None => bracket_body(i@.skip(1)) is None,
                Some((nm, c)) => bracket_body(i@.skip(1)) == Some(
                    (out@ + nm, ((pos - 1) + c) as nat),
                ),
            },
        decreases n - pos,
    {
        if pos >= n {
            assert(i@.skip(pos as int).len() == 0);
            return Err(ParseError(i));
        }
        let c = i.get_char(pos);
        proof {
            assert(i@.skip(pos as int)[0] == i@[pos as int]);
        }
        if c == '\u{27e9}' {
            proof {
                assert(bracket_body(i@.skip(pos as int)) == Some((Seq::<char>::empty(), 1nat)));
                assert(out@ + Seq::<char>::empty() =~= out@);
            }
            if out.as_str().is_empty() {
                return Err(ParseError(i));
            }
            let rest = i.substring_char(pos + 1, n);
            proof {
                assert(rest@ =~= i@.skip(1 + pos as int));
            }
            return Ok((rest, out));
        } else {
            let ghost out0 = out@;
            out.append(i.substring_char(pos, pos + 1));
            proof {
                assert(i@.skip(pos as int).skip(1) =~= i@.skip(pos as int + 1));
                assert(out@ =~= out0 + seq![i@[pos as int]]);
                if let Some((nm, c)) = bracket_body(i@.skip(pos as int + 1)) {
                    assert(out@ + nm =~= out0 + (seq![i@[pos as int]] + nm));
                }
            }
            pos = pos + 1;
        }
    }
}

/// The escaped body of a backtick-quoted form for the logical text `s`:
/// a backslash is written before every backtick and every backslash.
pub open spec fn bt_escape(s: Seq<char>) -> Seq<char>
    decreases s.len(),
{
    if s.len() == 0 {
        Seq::empty()
    } else if s[0] == '`' || s[0] == '\\' {
        seq!['\\', s[0]] + bt_escape(s.skip(1))
    } else {
        seq![s[0]] + bt_escape(s.skip(1))
    }
}

/// What rendering a logical text to source syntax yields: the text itself
/// when it is a nonempty bare word, otherwise a backtick-quoted form.
pub open spec fn escape_spec(s: Seq<char>) -> Seq<char> {
    if s.len() > 0 && all_word_chars(s) {
        s
    } else {
        seq!['`'] + bt_escape(s) + seq!['`']
    }
}

/// Render a logical identifier text to source syntax that the grammar
/// accepts and maps back to the same text.
pub fn escape_ident(s: &str) -> (r: String)
    ensures
        r@ == escape_spec(s@),
{
    let n = s.unicode_len();
    let mut all_ok = n > 0;
    let mut k: usize = 0;
    while k < n
        invariant
            k <= n,
            n == s@.len(),
            all_ok == (n > 0 && (forall|j: int| 0 <= j < k ==> is_word_char(#[trigger] s@[j]))),
        decreases n - k,
    {
        if !word_char(s.get_char(k)) {
            all_ok = false;
        } else {
            proof {
                if all_ok {
                    assert(forall|j: int| 0 <= j < k + 1 ==> is_word_char(#[trigger] s@[j]));
                }
            }
        }
        k = k + 1;
    }
    if all_ok {
        return s.to_owned();
    }
    proof {
        reveal_strlit("`");
        reveal_strlit("\\");
    }
    let mut out = String::from_str("`");
    proof {
        assert(out@ =~= seq!['`']);
        assert(s@.skip(0) =~= s@);
    }
    let mut p: usize = 0;
    while p < n
        invariant
            p <= n,
            n == s@.len(),
            out@ + bt_escape(s@.skip(p as int)) == seq!['`'] + bt_escape(s@),
            "`"@ =~= seq!['`'],
            "\\"@ =~= seq!['\\'],
        decreases n - p,
    {
        let c = s.get_char(p);
        let ghost out0 = out@;
        if c == '`' || c == '\\' {
            out.append("\\");
        }
        out.append(s.substring_char(p, p + 1));
        proof {
            assert(s@.skip(p as int)[0] == s@[p as int]);
            assert(s@.skip(p as int).skip(1) =~= s@.skip(p as int + 1));
            if c == '`' || c == '\\' {
                assert(out@ =~= out0 + seq!['\\', s@[p as int]]);
                assert(out@ + bt_escape(s@.skip(p as int + 1)) =~= out0 + (seq![
                    '\\',
                    s@[p as int],
                ] + bt_escape(s@.skip(p as int + 1))));
            } else {
                assert(out@ =~= out0 + seq![s@[p as int]]);
                assert(out@ + bt_escape(s@.skip(p as int + 1)) =~= out0 + (seq![s@[p as int]]
                    + bt_escape(s@.skip(p as int + 1))));
            }
        }
        p = p + 1;
    }
    proof {
        assert(bt_escape(s@.skip(n as int)) =~= Seq::<char>::empty());
        assert(out@ + Seq::<char>::empty() =~= out@);
    }
    out.append("`");
    proof {
        assert(out@ =~= seq!['`'] + bt_escape(s@) + seq!['`']);
    }
    out
}

/// The escaped body, followed by the closing backtick and anything after it,
/// reads back as exactly the text that was escaped.
proof fn lemma_bt_body_escape(s: Seq<char>, t: Seq<char>)
    ensures
        bt_body(bt_escape(s) + seq!['`'] + t) == Some((s, (bt_escape(s).len() + 1) as nat)),
    decreases s.len(),
{
    let e = bt_escape(s) + seq!['`'] + t;
    if s.len() == 0 {
        assert(e[0] == '`');
        assert(s =~= Seq::<char>::empty());
    } else if s[0] == '`' || s[0] == '\\' {
        assert(e[0] == '\\');
        assert(e[1] == s[0]);
        assert(e.len() >= 2);
        assert(e.skip(2) =~= bt_escape(s.skip(1)) + seq!['`'] + t);
        lemma_bt_body_escape(s.skip(1), t);
        assert(seq![e[1]] + s.skip(1) =~= s);
    } else {
        assert(e[0] == s[0]);
        assert(e[0] != '`' && e[0] != '\\');
        assert(e.skip(1) =~= bt_escape(s.skip(1)) + seq!['`'] + t);
        lemma_bt_body_escape(s.skip(1), t);
        assert(seq![e[0]] + s.skip(1) =~= s);
    }
}

/// Rendering any nonempty logical text to source syntax and parsing it back
/// yields the identical text, with the rendered form consumed whole.
pub proof fn lemma_display_parse_round_trip(s: Seq<char>)
    requires
        s.len() > 0,
    ensures
        ident_spec(escape_spec(s)) == Some((s, escape_spec(s).len())),
{
    let e = escape_spec(s);
    if all_word_chars(s) {
        assert(e == s);
        assert(!is_word_char('`'));
        assert(!is_word_char(bracket_open()));
        assert(is_word_char(s[0]));
        lemma_word_len_at(s, s.len() as int);
        assert(s.take(word_len(s) as int) =~= s);
    } else {
        assert(e =~= seq!['`'] + (bt_escape(s) + seq!['`'] + Seq::<char>::empty()));
        assert(e[0] == '`');
        assert(e.skip(1) =~= bt_escape(s) + seq!['`'] + Seq::<char>::empty());
        lemma_bt_body_escape(s, Seq::empty());
        assert(e.len() == bt_escape(s).len() + 2);
    }
}

/// Parsing a bare word consumes it whole, and rendering the parsed name
/// reproduces the word exactly.
pub proof fn lemma_parse_display_bare(s: Seq<char>)
    requires
        s.len() > 0,
        all_word_chars(s),
    ensures
        ident_spec(s) == Some((s, s.len())),
        escape_spec(s) == s,
{
    assert(!is_word_char('`'));
    assert(!is_word_char(bracket_open()));
    assert(is_word_char(s[0]));
    lemma_word_len_at(s, s.len() as int);
    assert(s.take(word_len(s) as int) =~= s);
}

} // verus!
