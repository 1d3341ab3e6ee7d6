//! Table names and ordered lists of them: parsing from source text,
//! rendering back to escaped source syntax, and reference generation.

use core::cmp::Ordering;

use vstd::prelude::*;
use vstd::string::*;

use crate::err::{IResult, ParseError};
use crate::id::{Id, Thing};
use crate::ident::{
    escape_ident, escape_spec, ident_raw, ident_spec, lemma_ident_bounds, Ident,
};
use crate::sep::{commas, commas_spec, lemma_commas_bounds};

verus! {

/// The canonical in-memory name of a record collection: the logical
/// (unescaped) identifier text. Direct construction applies no validation;
/// validation happens during parsing.
#[derive(Debug, Clone)]
pub struct Table(pub String);

impl View for Table {
    type V = Seq<char>;

    open spec fn view(&self) -> Seq<char> {
        self.0@
    }
}

impl PartialEq for Table {
    /// Two table names are equal exactly when their texts are equal:
    /// no case folding, no normalization.
    fn eq(&self, other: &Table) -> (r: bool) {
        self.0 == other.0
    }
}

impl vstd::std_specs::cmp::PartialEqSpecImpl for Table {
    open spec fn obeys_eq_spec() -> bool {
        true
    }

    open spec fn eq_spec(&self, other: &Table) -> bool {
        self.0@ == other.0@
    }
}

impl Eq for Table {

}

/// Lexicographic order of two texts by code point: the natural order of
/// table names, used for deterministic sorting where they appear in sets.
pub open spec fn lex_cmp(a: Seq<char>, b: Seq<char>) -> Ordering
    decreases a.len(),
{
    if a.len() == 0 && b.len() == 0 {
        Ordering::Equal
    } else if a.len() == 0 {
        Ordering::Less
    } else if b.len() == 0 {
        Ordering::Greater
    } else if a[0] == b[0] {
        lex_cmp(a.skip(1), b.skip(1))
    } else if a[0] < b[0] {
        Ordering::Less
    } else {
        Ordering::Greater
    }
}

impl PartialOrd for Table {
    /// Table names order by their wrapped text's natural order.
    fn partial_cmp(&self, other: &Table) -> (r: Option<Ordering>) {
        let a = self.0.as_str();
        let b = other.0.as_str();
        let na = a.unicode_len();
        let nb = b.unicode_len();
        let mut k: usize = 0;
        proof {
            assert(a@.skip(0) =~= a@);
            assert(b@.skip(0) =~= b@);
        }
        loop
            invariant
                k <= na,
                k <= nb,
                na == a@.len(),
                nb == b@.len(),
                a@ == self.0@,
                b@ == other.0@,
                lex_cmp(self.0@, other.0@) == lex_cmp(a@.skip(k as int), b@.skip(k as int)),
            decreases na - k,
        {
            if k >= na && k >= nb {
                return Some(Ordering::Equal);
            }
            if k >= na {
                return Some(Ordering::Less);
            }
            if k >= nb {
                return Some(Ordering::Greater);
            }
            let ca = a.get_char(k);
            let cb = b.get_char(k);
            proof {
                assert(a@.skip(k as int)[0] == a@[k as int]);
                assert(b@.skip(k as int)[0] == b@[k as int]);
                assert(a@.skip(k as int).skip(1) =~= a@.skip(k as int + 1));
                assert(b@.skip(k as int).skip(1) =~= b@.skip(k as int + 1));
            }
            if ca < cb {
                return Some(Ordering::Less);
            }
            if cb < ca {
                return Some(Ordering::Greater);
            }
            k = k + 1;
        }
    }
}

impl vstd::std_specs::cmp::PartialOrdSpecImpl for Table {
    open spec fn obeys_partial_cmp_spec() -> bool {
        true
    }

    open spec fn partial_cmp_spec(&self, other: &Table) -> Option<Ordering> {
        Some(lex_cmp(self.0@, other.0@))
    }
}

impl Default for Table {
    /// The placeholder value: an empty name, only held until a real one is
    /// assigned.
    fn default() -> (r: Table)
        ensures
            r@ == Seq::<char>::empty(),
    {
        Table(String::new())
    }
}

impl Table {
    /// Wrap an owned text value as a table name; no validation is applied.
    pub fn from_owned_text(v: String) -> (r: Table)
        ensures
            r@ == v@,
    {
        Table(v)
    }

    /// Copy a borrowed text value into a table name; no validation is
    /// applied.
    pub fn from_borrowed_text(v: &str) -> (r: Table)
        ensures
            r@ == v@,
    {
        Table(v.to_owned())
    }

    /// Reinterpret a previously validated identifier as a table name,
    /// without re-validation.
    pub fn from_identifier(v: Ident) -> (r: Table)
        ensures
            r@ == v.0@,
    {
        Table(v.0)
    }

    /// The wrapped logical name, read-only.
    pub fn name(&self) -> (r: &String)
        ensures
            r@ == self@,
    {
        &self.0
    }

    /// Render the name to valid source syntax: bare when it is a nonempty
    /// bare word, quoted and escaped otherwise.
    pub fn display(&self) -> (r: String)
        ensures
            r@ == escape_spec(self@),
    {
        escape_ident(self.0.as_str())
    }

    /// Produce a reference to a fresh record of this table: the table field
    /// copies this name, the identifier is drawn anew on every call.
    pub fn generate(&self) -> (r: Thing)
        ensures
            r.tb@ == self@,
    {
        Thing { tb: self.0.clone(), id: Id::rand() }
    }
}

/// Parse one table name from the front of `i`: the remainder and the name
/// on success, the unmatched text on failure.
pub fn table<'a>(i: &'a str) -> (r: IResult<'a, Table>)
    ensures
        match ident_spec(i@) {
            Some((nm, c)) => r matches Ok((rest, t)) && rest@ == i@.skip(c as int) && t@ == nm,
            None => r matches Err(e) && e.0@ == i@,
        },
{
    match ident_raw(i) {
        Ok((rest, v)) => Ok((rest, Table(v))),
        Err(e) => Err(e),
    }
}

/// What parsing the names after a first one yields, read at a position just
/// after a parsed name: the further names and the characters they span with
/// their separators. Ends without failing where no separator follows; fails
/// where a separator is consumed but no name follows it.
pub open spec fn tables_cont(s: Seq<char>) -> Option<(Seq<Seq<char>>, nat)>
    decreases s.len(),
    via tables_cont_dec
{
    match commas_spec(s) {
        None => Some((Seq::empty(), 0nat)),
        Some(m) => match ident_spec(s.skip(m as int)) {
            None => None,
            Some((nm, c)) => match tables_cont(s.skip(m as int + c as int)) {
                None => None,
                Some((nms, k)) => Some((seq![nm] + nms, (m + c + k) as nat)),
            },
        },
    }
}

#[via_fn]
proof fn tables_cont_dec(s: Seq<char>) {
    lemma_commas_bounds(s);
    if let Some(m) = commas_spec(s) {
        lemma_ident_bounds(s.skip(m as int));
    }
}

/// Where a failed continuation stops: the text after the consumed separator
/// whose expected name cannot be parsed. Meaningful only where
/// `tables_cont(s)` is `None`.
pub open spec fn tables_cont_fail(s: Seq<char>) -> Seq<char>
    decreases s.len(),
    via tables_cont_fail_dec
{
    match commas_spec(s) {
        None => s,
        Some(m) => if ident_spec(s.skip(m as int)) is None {
            s.skip(m as int)
        } else {
            tables_cont_fail(s.skip(m as int + ident_spec(s.skip(m as int)).unwrap().1 as int))
        },
    }
}

#[via_fn]
proof fn tables_cont_fail_dec(s: Seq<char>) {
    lemma_commas_bounds(s);
    if let Some(m) = commas_spec(s) {
        lemma_ident_bounds(s.skip(m as int));
    }
}

/// Where a failed list parse stops: the whole input where the first name
/// fails, else the text whose name was owed after a consumed separator.
/// Meaningful only where `tables_spec(s)` is `None`.
pub open spec fn tables_fail(s: Seq<char>) -> Seq<char> {
    match ident_spec(s) {
        None => s,
        Some((nm, c)) => tables_cont_fail(s.skip(c as int)),
    }
}

/// What parsing a comma-separated list of table names from `s` yields: the
/// names in source order and the characters consumed, or `None` when no
/// first name can be parsed or a consumed separator is not followed by one.
pub open spec fn tables_spec(s: Seq<char>) -> Option<(Seq<Seq<char>>, nat)> {
    match ident_spec(s) {
        None => None,
        Some((nm, c)) => match tables_cont(s.skip(c as int)) {
            None => None,
            Some((nms, k)) => Some((seq![nm] + nms, (c + k) as nat)),
        },
    }
}

/// An ordered list of table names as they appear in comma-separated source
/// syntax. Parsing yields at least one element; the empty list is reachable
/// only through default construction.
#[derive(Debug, Clone, PartialEq, Eq)]
pub struct Tables(pub Vec<Table>);

impl View for Tables {
    type V = Seq<Seq<char>>;

    open spec fn view(&self) -> Seq<Seq<char>> {
        self.0@.map_values(|t: Table| t@)
    }
}

impl Default for Tables {
    /// The placeholder value: an empty list, never produced by parsing.
    fn default() -> (r: Tables)
        ensures
            r@ == Seq::<Seq<char>>::empty(),
    {
        let r = Tables(Vec::new());
        proof {
            assert(r@ =~= Seq::<Seq<char>>::empty());
        }
        r
    }
}

/// The rendering of every name after the first: a comma and one space, then
/// the rendered name.
pub open spec fn join_tail(ts: Seq<Seq<char>>) -> Seq<char>
    decreases ts.len(),
{
    if ts.len() == 0 {
        Seq::empty()
    } else {
        seq![',', ' '] + escape_spec(ts[0]) + join_tail(ts.skip(1))
    }
}

/// The rendering of a list of names: each rendered to source syntax, joined
/// by a comma and one space, in order; empty for the empty list.
pub open spec fn join_display(ts: Seq<Seq<char>>) -> Seq<char> {
    if ts.len() == 0 {
        Seq::empty()
    } else {
        escape_spec(ts[0]) + join_tail(ts.skip(1))
    }
}

impl Tables {
    /// How many names the list holds.
    pub fn len(&self) -> (r: usize)
        ensures
            r == self@.len(),
    {
        self.0.len()
    }

    /// Read-only access to the name at position `k`.
    pub fn get(&self, k: usize) -> (r: &Table)
        requires
            k < self@.len(),
        ensures
            r@ == self@[k as int],
    {
        &self.0[k]
    }

    /// Render the list to source syntax, each name escaped as needed.
    pub fn display(&self) -> (r: String)
        ensures
            r@ == join_display(self@),
    {
        let len = self.0.len();
        if len == 0 {
            let r = String::new();
            proof {
                assert(r@ =~= join_display(self@));
            }
            return r;
        }
        let mut out = self.0[0].display();
        proof {
            reveal_strlit(", ");
            assert(", "@ =~= seq![',', ' ']);
            assert(self@[0] == self.0@[0]@);
        }
        let mut k: usize = 1;
        while k < len
            invariant
                1 <= k <= len,
                len == self@.len(),
                len == self.0@.len(),
                out@ + join_tail(self@.skip(k as int)) == join_display(self@),
                ", "@ =~= seq![',', ' '],
            decreases len - k,
        {
            let ghost out0 = out@;
            out.append(", ");
            let d = self.0[k].display();
            out.append(d.as_str());
            proof {
                assert(self@[k as int] == self.0@[k as int]@);
                assert(self@.skip(k as int)[0] == self@[k as int]);
                assert(self@.skip(k as int).skip(1) =~= self@.skip(k as int + 1));
                assert(out@ =~= out0 + seq![',', ' '] + escape_spec(self@[k as int]));
                assert(out@ + join_tail(self@.skip(k as int + 1)) =~= out0 + (seq![',', ' ']
                    + escape_spec(self@[k as int]) + join_tail(self@.skip(k as int + 1))));
            }
            k = k + 1;
        }
        proof {
            assert(join_tail(self@.skip(len as int)) =~= Seq::<char>::empty());
            assert(out@ + Seq::<char>::empty() =~= out@);
        }
        out
    }
}

/// Parse one or more comma-separated table names from the front of `i`.
/// The result holds at least one name. A failure of the first name, or of
/// a name after a consumed separator, fails the whole parse; a position
/// with no further separator ends it, the remainder unconsumed.
pub fn tables<'a>(i: &'a str) -> (r: IResult<'a, Tables>)
    ensures
        match tables_spec(i@) {
            Some((nms, c)) => r matches Ok((rest, ts)) && rest@ == i@.skip(c as int) && ts@ == nms
                && nms.len() >= 1,
            None => r matches Err(e) && e.0@ == tables_fail(i@),
        },
{
    let (first_rest, t0) = match table(i) {
        Ok(x) => x,
        Err(e) => {
            return Err(e);
        },
    };
    let mut rest = first_rest;
    let mut out: Vec<Table> = Vec::new();
    out.push(t0);
    let ghost mut consumed: int = ident_spec(i@).unwrap().1 as int;
    proof {
        lemma_ident_bounds(i@);
        assert(out@.map_values(|t: Table| t@) =~= seq![ident_spec(i@).unwrap().0]);
    }
    loop
        invariant
            1 <= out@.len(),
            0 <= consumed <= i@.len(),
            rest@ == i@.skip(consumed),
            ident_spec(i@) is Some,
            match tables_cont(rest@) {
                None => tables_spec(i@) is None && tables_fail(i@) == tables_cont_fail(rest@),
                Some((nms, k)) => tables_spec(i@) == Some(
                    (out@.map_values(|t: Table| t@) + nms, (consumed + k) as nat),
                ),
            },
        decreases i@.len() - consumed,
    {
        match commas(rest) {
            None => {
                proof {
                    assert(tables_cont(rest@) == Some((Seq::<Seq<char>>::empty(), 0nat)));
                    assert(out@.map_values(|t: Table| t@) + Seq::<Seq<char>>::empty()
                        =~= out@.map_values(|t: Table| t@));
                }
                return Ok((rest, Tables(out)));
            },
            Some(rest2) => {
                let ghost m = commas_spec(rest@).unwrap() as int;
                proof {
                    lemma_commas_bounds(rest@);
                    assert(rest2@ =~= i@.skip(consumed + m));
                }
                match table(rest2) {
                    Err(e) => {
                        proof {
                            assert(rest@.skip(m) == rest2@);
                            assert(tables_cont(rest@) is None);
                            assert(tables_cont_fail(rest@) == rest2@);
                        }
                        return Err(e);
                    },
                    Ok((rest3, t)) => {
                        let ghost c = ident_spec(rest2@).unwrap().1 as int;
                        let ghost nm = ident_spec(rest2@).unwrap().0;
                        proof {
                            lemma_ident_bounds(rest2@);
                            assert(rest3@ =~= i@.skip(consumed + m + c));
                        }
                        let ghost out0 = out@.map_values(|t: Table| t@);
                        out.push(t);
                        proof {
                            assert(out@.map_values(|t: Table| t@) =~= out0 + seq![nm]);
                            assert(commas_spec(rest@) == Some(m as nat));
                            assert(rest@.skip(m) == rest2@);
                            assert(ident_spec(rest2@) == Some((nm, c as nat)));
                            assert(rest@.skip(m + c) =~= i@.skip(consumed + m + c));
                            assert(rest@.skip(m + c) == rest3@);
                            if let Some((nms, k)) = tables_cont(rest3@) {
                                assert(tables_cont(rest@) == Some(
                                    (seq![nm] + nms, (m + c + k) as nat),
                                ));
                                assert(out0 + seq![nm] + nms =~= out0 + (seq![nm] + nms));
                            }
                            assert(tables_cont_fail(rest@) == tables_cont_fail(rest3@));
                            consumed = consumed + m + c;
                        }
                        rest = rest3;
                    },
                }
            },
        }
    }
}

} // verus!
