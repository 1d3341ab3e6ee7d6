//! The token separator between table names: one comma together with the
//! insignificant whitespace around it.

use vstd::prelude::*;
use vstd::string::*;

verus! {

pub open spec fn is_space_char(c: char) -> bool {
    c == ' ' || c == '\t' || c == '\r' || c == '\n'
}

fn space_char(c: char) -> (r: bool)
    ensures
        r == is_space_char(c),
{
    c == ' ' || c == '\t' || c == '\r' || c == '\n'
}

/// Length of the longest prefix of `s` made of whitespace characters.
pub open spec fn ws_len(s: Seq<char>) -> nat
    decreases s.len(),
{
    if s.len() == 0 || !is_space_char(s[0]) {
        0
    } else {
        (1 + ws_len(s.skip(1))) as nat
    }
}

proof fn lemma_ws_len_le(s: Seq<char>)
    ensures
        ws_len(s) <= s.len(),
    decreases s.len(),
{
    if s.len() != 0 && is_space_char(s[0]) {
        lemma_ws_len_le(s.skip(1));
    }
}

/// The whitespace prefix ends exactly at the first non-space character.
proof fn lemma_ws_len_at(s: Seq<char>, k: int)
    requires
        0 <= k <= s.len(),
        forall|j: int| 0 <= j < k ==> is_space_char(#[trigger] s[j]),
        k == s.len() || !is_space_char(s[k]),
    ensures
        ws_len(s) == k,
    decreases k,
{
    if k == 0 {
    } else {
        assert(is_space_char(s[0]));
        assert forall|j: int| 0 <= j < k - 1 implies is_space_char(#[trigger] s.skip(1)[j]) by {
            assert(s.skip(1)[j] == s[j + 1]);
        }
        if k - 1 < s.skip(1).len() {
            assert(s.skip(1)[k - 1] == s[k]);
        }
        lemma_ws_len_at(s.skip(1), k - 1);
    }
}

/// How many characters a separator at the front of `s` spans: optional
/// whitespace, one comma, optional whitespace. `None` when no comma follows
/// the leading whitespace.
pub open spec fn commas_spec(s: Seq<char>) -> Option<nat> {
    let a = ws_len(s) as int;
    if a < s.len() && s[a] == ',' {
        Some((a + 1 + ws_len(s.skip(a + 1))) as nat)
    } else {
        None
    }
}

/// A separator spans at least its comma and at most the whole text.
pub proof fn lemma_commas_bounds(s: Seq<char>)
    ensures
        commas_spec(s) matches Some(m) ==> 1 <= m <= s.len(),
{
    lemma_ws_len_le(s);
    let a = ws_len(s) as int;
    if a < s.len() && s[a] == ',' {
        lemma_ws_len_le(s.skip(a + 1));
    }
}

/// Scan whitespace in `i` from position `from`; returns where it ends.
fn scan_space(i: &str, from: usize, n: usize) -> (p: usize)
    requires
        n == i@.len(),
        from <= n,
    ensures
        from <= p <= n,
        ws_len(i@.skip(from as int)) == p - from,
{
    let mut pos: usize = from;
    while pos < n && space_char(i.get_char(pos))
        invariant
            from <= pos <= n,
            n == i@.len(),
            forall|j: int| from <= j < pos ==> is_space_char(#[trigger] i@[j]),
        decreases n - pos,
    {
        pos = pos + 1;
    }
    proof {
        assert forall|j: int| 0 <= j < pos - from implies is_space_char(
            #[trigger] i@.skip(from as int)[j],
        ) by {
            assert(i@.skip(from as int)[j] == i@[from + j]);
        }
        if pos < n {
            assert(i@.skip(from as int)[pos - from] == i@[pos as int]);
        }
        lemma_ws_len_at(i@.skip(from as int), pos as int - from as int);
    }
    pos
}

/// Consume one separator from the front of `i`: the remainder on success,
/// `None` when no comma follows the leading whitespace.
pub fn commas<'a>(i: &'a str) -> (r: Option<&'a str>)
    ensures
        match commas_spec(i@) {
            Some(m) => r matches Some(rest) && rest@ == i@.skip(m as int),
            None => r is None,
        },
{
    let n = i.unicode_len();
    let a = scan_space(i, 0, n);
    proof {
        assert(i@.skip(0) =~= i@);
    }
    if a >= n {
        return None;
    }
    if i.get_char(a) != ',' {
        return None;
    }
    let b = scan_space(i, a + 1, n);
    let rest = i.substring_char(b, n);
    proof {
        assert(rest@ =~= i@.skip(b as int));
    }
    Some(rest)
}

} // verus!
