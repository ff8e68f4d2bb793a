//! Parser for the control index's paragraph format: blocks of `Key: Value`
//! lines separated by blank lines.
//!
//! [`next`] consumes one paragraph from a byte buffer starting at a given
//! position.  Each field line is split on the first `:`; both sides are
//! whitespace-trimmed; a line with no `:` is malformed.  Duplicate keys
//! within one paragraph overwrite earlier values.  A paragraph ends at the
//! first blank line after at least one field, so blank lines before the
//! first field are skipped; end of input before any field has been
//! collected means "no more paragraphs".

use vstd::prelude::*;

use crate::text::{find_nl, find_newline, is_trimmed, is_ws, lemma_find_nl_bounds,
    lemma_trim_all_ws, lemma_trim_shape, trim, trim_range};

verus! {

/// Failure to parse the current paragraph.
#[derive(Clone, Copy, PartialEq, Eq, Structural, Debug)]
pub enum Error {
    /// A field line with no `:` separator.
    Malformed,
}

/// One paragraph: an unordered mapping from field name to value, last
/// occurrence winning.  Stored as the sequence of field lines in input
/// order; the view folds them into a map.
#[derive(Debug)]
pub struct Paragraph {
    entries: Vec<(Vec<u8>, Vec<u8>)>,
}

/// The mapping that a sequence of key-value pairs denotes, later pairs
/// overwriting earlier ones.
pub open spec fn map_of(entries: Seq<(Seq<u8>, Seq<u8>)>) -> Map<Seq<u8>, Seq<u8>>
    decreases entries.len(),
{
    if entries.len() == 0 {
        Map::empty()
    } else {
        map_of(entries.drop_last()).insert(entries.last().0, entries.last().1)
    }
}

impl View for Paragraph {
    type V = Map<Seq<u8>, Seq<u8>>;

    closed spec fn view(&self) -> Map<Seq<u8>, Seq<u8>> {
        map_of(self.entries@.map_values(|p: (Vec<u8>, Vec<u8>)| (p.0@, p.1@)))
    }
}

proof fn lemma_map_of_last_match(s: Seq<(Seq<u8>, Seq<u8>)>, key: Seq<u8>, i: int)
    requires
        0 <= i < s.len(),
        s[i].0 == key,
        forall|j: int| i < j < s.len() ==> (#[trigger] s[j]).0 != key,
    ensures
        map_of(s).dom().contains(key),
        map_of(s)[key] == s[i].1,
    decreases s.len(),
{
    if i == s.len() - 1 {
    } else {
        let t = s.drop_last();
        assert(forall|j: int| i < j < t.len() ==> (#[trigger] t[j]).0 != key);
        lemma_map_of_last_match(t, key, i);
        assert(s.last().0 != key);
    }
}

proof fn lemma_map_of_no_match(s: Seq<(Seq<u8>, Seq<u8>)>, key: Seq<u8>)
    requires
        forall|j: int| 0 <= j < s.len() ==> (#[trigger] s[j]).0 != key,
    ensures
        !map_of(s).dom().contains(key),
    decreases s.len(),
{
    if s.len() > 0 {
        lemma_map_of_no_match(s.drop_last(), key);
    }
}

impl Paragraph {
    pub fn new() -> (r: Paragraph)
        ensures
            r@ == Map::<Seq<u8>, Seq<u8>>::empty(),
            r.field_count() == 0,
    {
        Paragraph { entries: Vec::new() }
    }

    /// How many field lines were collected (duplicates counted).
    pub closed spec fn field_count(&self) -> nat {
        self.entries@.len()
    }

    /// Record one field line, overwriting any earlier value of the key.
    pub fn insert(&mut self, key: Vec<u8>, value: Vec<u8>)
        ensures
            final(self)@ == old(self)@.insert(key@, value@),
            final(self).field_count() == old(self).field_count() + 1,
    {
        self.entries.push((key, value));
        proof {
            let m = self.entries@.map_values(|p: (Vec<u8>, Vec<u8>)| (p.0@, p.1@));
            let o = old(self).entries@.map_values(|p: (Vec<u8>, Vec<u8>)| (p.0@, p.1@));
            assert(m.drop_last() =~= o);
            assert(m.last() == (key@, value@));
        }
    }

    pub fn is_empty(&self) -> (r: bool)
        ensures
            r == (self.field_count() == 0),
    {
        self.entries.len() == 0
    }

    /// Look a field up by name.
    pub fn get(&self, key: &Vec<u8>) -> (r: Option<&Vec<u8>>)
        ensures
            match r {
                Some(v) => self@.dom().contains(key@) && v@ == self@[key@],
                None => !self@.dom().contains(key@),
            },
    {
        let ghost m = self.entries@.map_values(|p: (Vec<u8>, Vec<u8>)| (p.0@, p.1@));
        let mut i: usize = self.entries.len();
        while i > 0
            invariant
                i <= self.entries@.len(),
                m == self.entries@.map_values(|p: (Vec<u8>, Vec<u8>)| (p.0@, p.1@)),
                forall|j: int| i <= j < m.len() ==> (#[trigger] m[j]).0 != key@,
            decreases i,
        {
            i = i - 1;
            if crate::text::bytes_eq(&self.entries[i].0, key) {
                proof {
                    assert(m[i as int].0 == key@);
                    lemma_map_of_last_match(m, key@, i as int);
                }
                return Some(&self.entries[i].1);
            }
            assert(m[i as int].0 != key@);
        }
        proof {
            lemma_map_of_no_match(m, key@);
        }
        None
    }
}

/// Index of the first `:` in `s` at or after `from`, or `s.len()` if none.
pub open spec fn find_colon(s: Seq<u8>, from: int) -> int
    decreases s.len() - from,
{
    if from < 0 || from >= s.len() {
        s.len() as int
    } else if s[from] == 0x3a {
        from
    } else {
        find_colon(s, from + 1)
    }
}

proof fn lemma_find_colon_at(s: Seq<u8>, from: int, i: int)
    requires
        0 <= from <= i <= s.len(),
        forall|j: int| from <= j < i ==> s[j] != 0x3a,
        i < s.len() ==> s[i] == 0x3a,
    ensures
        find_colon(s, from) == if i < s.len() { i } else { s.len() as int },
    decreases i - from,
{
    if from < i {
        lemma_find_colon_at(s, from + 1, i);
    }
}

fn find_colon_exec(s: &Vec<u8>) -> (r: usize)
    ensures
        r == find_colon(s@, 0),
        r <= s@.len(),
{
    let mut i: usize = 0;
    while i < s.len()
        invariant
            0 <= i <= s@.len(),
            forall|j: int| 0 <= j < i ==> s@[j] != 0x3a,
        decreases s@.len() - i,
    {
        if s[i] == 0x3a {
            proof {
                lemma_find_colon_at(s@, 0, i as int);
            }
            return i;
        }
        i = i + 1;
    }
    proof {
        lemma_find_colon_at(s@, 0, s@.len() as int);
    }
    i
}

/// What parsing one paragraph from position `pos` yields.
pub enum Outcome {
    /// A paragraph holding at least one field, and the position just past
    /// it.
    Para(Map<Seq<u8>, Seq<u8>>, int),
    /// End of input before any field.
    End,
    /// A field line with no `:`.
    Malformed,
}

/// One paragraph parsed from `s` at `pos`, with the fields already collected
/// in `acc`; `any` says whether at least one field line has been seen.
pub open spec fn parse_from(s: Seq<u8>, pos: int, acc: Map<Seq<u8>, Seq<u8>>, any: bool) -> Outcome
    decreases s.len() - pos,
    via parse_from_dec
{
    if pos < 0 || pos >= s.len() {
        if any {
            Outcome::Para(acc, s.len() as int)
        } else {
            Outcome::End
        }
    } else {
        let le = find_newline(s, pos);
        let nx = if le < s.len() { le + 1 } else { le };
        let line = trim(s.subrange(pos, le));
        if line.len() == 0 {
            if any {
                Outcome::Para(acc, nx)
            } else {
                parse_from(s, nx, acc, any)
            }
        } else {
            let ci = find_colon(line, 0);
            if ci == line.len() {
                Outcome::Malformed
            } else {
                parse_from(
                    s,
                    nx,
                    acc.insert(trim(line.subrange(0, ci)), trim(line.subrange(ci + 1, line.len() as int))),
                    true,
                )
            }
        }
    }
}

#[via_fn]
proof fn parse_from_dec(s: Seq<u8>, pos: int, acc: Map<Seq<u8>, Seq<u8>>, any: bool) {
    if 0 <= pos < s.len() {
        lemma_find_nl_bounds(s, pos);
    }
}

/// Parse the next paragraph of `input` starting at `pos`.
///
/// Returns the paragraph and the position just past it, `None` when the
/// input ends before any field line (blank lines included), or
/// [`Error::Malformed`] on a field line with no `:`.
pub fn next(input: &Vec<u8>, pos: usize) -> (r: Result<Option<(Paragraph, usize)>, Error>)
    requires
        pos <= input@.len(),
    ensures
        match r {
            Ok(Some((para, newpos))) => parse_from(input@, pos as int, Map::empty(), false)
                == Outcome::Para(para@, newpos as int) && newpos <= input@.len(),
            Ok(None) => parse_from(input@, pos as int, Map::empty(), false) == Outcome::End,
            Err(_) => parse_from(input@, pos as int, Map::empty(), false) == Outcome::Malformed,
        },
{
    let mut p = pos;
    let mut para = Paragraph::new();
    loop
        invariant
            p <= input@.len(),
            parse_from(input@, pos as int, Map::empty(), false) == parse_from(
                input@,
                p as int,
                para@,
                para.field_count() > 0,
            ),
        decreases input@.len() - p,
    {
        if p >= input.len() {
            if para.is_empty() {
                return Ok(None);
            } else {
                return Ok(Some((para, p)));
            }
        }
        let le = find_nl(input, p);
        proof {
            lemma_find_nl_bounds(input@, p as int);
        }
        let nx = if le < input.len() {
            le + 1
        } else {
            le
        };
        let line = trim_range(input, p, le);
        if line.len() == 0 {
            if para.is_empty() {
                // a blank line before the first field is skipped
                p = nx;
            } else {
                return Ok(Some((para, nx)));
            }
        } else {
            let ci = find_colon_exec(&line);
            if ci == line.len() {
                return Err(Error::Malformed);
            }
            let key = trim_range(&line, 0, ci);
            let value = trim_range(&line, ci + 1, line.len());
            para.insert(key, value);
            p = nx;
        }
    }
}

proof fn lemma_parse_from_pos(s: Seq<u8>, pos: int, acc: Map<Seq<u8>, Seq<u8>>, any: bool)
    requires
        0 <= pos <= s.len(),
    ensures
        parse_from(s, pos, acc, any) matches Outcome::Para(_, np) ==> pos <= np <= s.len(),
    decreases s.len() - pos,
{
    if pos < s.len() {
        let le = find_newline(s, pos);
        lemma_find_nl_bounds(s, pos);
        let nx = if le < s.len() { le + 1 } else { le };
        let line = trim(s.subrange(pos, le));
        if line.len() == 0 {
            if !any {
                lemma_parse_from_pos(s, nx, acc, any);
            }
        } else {
            let ci = find_colon(line, 0);
            if ci != line.len() {
                lemma_parse_from_pos(
                    s,
                    nx,
                    acc.insert(trim(line.subrange(0, ci)), trim(line.subrange(ci + 1, line.len() as int))),
                    true,
                );
            }
        }
    }
}

/// A parse that yields a paragraph moves the position strictly forward.
pub proof fn lemma_parse_advances(s: Seq<u8>, pos: int)
    requires
        0 <= pos <= s.len(),
    ensures
        parse_from(s, pos, Map::empty(), false) matches Outcome::Para(_, np) ==> pos < np
            <= s.len(),
    decreases s.len() - pos,
{
    if pos < s.len() {
        let le = find_newline(s, pos);
        lemma_find_nl_bounds(s, pos);
        let nx = if le < s.len() { le + 1 } else { le };
        let line = trim(s.subrange(pos, le));
        if line.len() == 0 {
            lemma_parse_advances(s, nx);
        } else {
            let ci = find_colon(line, 0);
            if ci != line.len() {
                lemma_parse_from_pos(
                    s,
                    nx,
                    Map::empty().insert(
                        trim(line.subrange(0, ci)),
                        trim(line.subrange(ci + 1, line.len() as int)),
                    ),
                    true,
                );
            }
        }
    }
}

/// Every key and value of a parsed paragraph is whitespace-trimmed, and end
/// of input before any field is end-of-stream, never an empty paragraph.
pub proof fn lemma_paragraph_fields_trimmed(s: Seq<u8>, pos: int)
    requires
        0 <= pos <= s.len(),
    ensures
        (parse_from(s, pos, Map::empty(), false) matches Outcome::Para(m, _) ==> forall|k: Seq<u8>|
            m.dom().contains(k) ==> is_trimmed(k) && is_trimmed(m[k])),
        pos == s.len() ==> parse_from(s, pos, Map::empty(), false) == Outcome::End,
{
    lemma_parse_from_trimmed(s, pos, Map::empty(), false);
}

/// Input that holds nothing but whitespace before its end yields
/// end-of-stream, never an empty paragraph.
pub proof fn lemma_blank_input_is_end(s: Seq<u8>, pos: int)
    requires
        0 <= pos <= s.len(),
        forall|j: int| pos <= j < s.len() ==> is_ws(s[j]),
    ensures
        parse_from(s, pos, Map::empty(), false) == Outcome::End,
    decreases s.len() - pos,
{
    if pos < s.len() {
        let le = find_newline(s, pos);
        lemma_find_nl_bounds(s, pos);
        let nx = if le < s.len() { le + 1 } else { le };
        let sub = s.subrange(pos, le);
        assert(forall|j: int| 0 <= j < sub.len() ==> is_ws(sub[j]));
        lemma_trim_all_ws(sub);
        lemma_blank_input_is_end(s, nx);
    }
}

proof fn lemma_parse_from_trimmed(s: Seq<u8>, pos: int, acc: Map<Seq<u8>, Seq<u8>>, any: bool)
    requires
        0 <= pos <= s.len(),
        forall|k: Seq<u8>| acc.dom().contains(k) ==> is_trimmed(k) && is_trimmed(acc[k]),
    ensures
        parse_from(s, pos, acc, any) matches Outcome::Para(m, _) ==> forall|k: Seq<u8>|
            m.dom().contains(k) ==> is_trimmed(k) && is_trimmed(m[k]),
    decreases s.len() - pos,
{
    if pos >= s.len() {
    } else {
        let le = find_newline(s, pos);
        lemma_find_nl_bounds(s, pos);
        let nx = if le < s.len() { le + 1 } else { le };
        let line = trim(s.subrange(pos, le));
        if line.len() == 0 {
            if !any {
                lemma_parse_from_trimmed(s, nx, acc, any);
            }
        } else {
            let ci = find_colon(line, 0);
            if ci == line.len() {
            } else {
                let k = trim(line.subrange(0, ci));
                let v = trim(line.subrange(ci + 1, line.len() as int));
                lemma_trim_shape(line.subrange(0, ci));
                lemma_trim_shape(line.subrange(ci + 1, line.len() as int));
                lemma_parse_from_trimmed(s, nx, acc.insert(k, v), true);
            }
        }
    }
}

} // verus!
