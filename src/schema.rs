//! The grammar of schema text: `key: type` entries.
use vstd::prelude::*;
use crate::lex::{name_end, name_end_from, rest_from, skip_end, skip_from, word_at, word_at_pos, SyntaxError};
use crate::types::{word_bool, word_number, word_string, Schema, SchemaEntry, SchemaType};

verus! {

/// A type keyword read after skipping from `p`, and where it ends. Keywords are
/// matched as prefixes, in the order `string`, `bool`, `number`.
pub open spec fn schema_type_at(s: Seq<char>, p: int) -> Option<(int, SchemaType)> {
    let q = skip_end(s, p);
    if word_at(s, q, word_string()) {
        Some((q + 6, SchemaType::String))
    } else if word_at(s, q, word_bool()) {
        Some((q + 4, SchemaType::Boolean))
    } else if word_at(s, q, word_number()) {
        Some((q + 6, SchemaType::Number))
    } else {
        None
    }
}

/// Where a schema key that starts at `p` (after skipping) ends: it runs up to
/// white space or `:`.
pub open spec fn schema_key_span(s: Seq<char>, p: int) -> (int, int) {
    let k0 = skip_end(s, p);
    (k0, name_end(s, k0, ':'))
}

/// `key ":" type` read from `p`, each part after skipping.
pub open spec fn schema_entry_at(s: Seq<char>, p: int) -> Option<(int, (Seq<char>, SchemaType))> {
    let (k0, k1) = schema_key_span(s, p);
    let c = skip_end(s, k1);
    if k0 < k1 && 0 <= c < s.len() && s[c] == ':' {
        match schema_type_at(s, c + 1) {
            Some((q, t)) => Some((q, (s.subrange(k0, k1), t))),
            None => None,
        }
    } else {
        None
    }
}

/// The entries read from `p` on, and where reading stopped.
pub open spec fn schema_items(s: Seq<char>, p: int) -> (Seq<(Seq<char>, SchemaType)>, int)
    decreases s.len() - p,
{
    if p < 0 || p > s.len() {
        (seq![], p)
    } else {
        match schema_entry_at(s, p) {
            Some((q, e)) => if p < q <= s.len() {
                let (rest, stop) = schema_items(s, q);
                (seq![e] + rest, stop)
            } else {
                (seq![], p)
            },
            None => (seq![], p),
        }
    }
}

/// Reads a type keyword after skipping from `p`.
fn schema_type_from(s: &str, p: usize) -> (r: Option<(usize, SchemaType)>)
    requires
        p <= s@.len(),
    ensures
        match r {
            Some((q, t)) => schema_type_at(s@, p as int) == Some((q as int, t)) && p < q <= s@.len(),
            None => schema_type_at(s@, p as int) is None,
        },
{
    let _n = s.unicode_len();
    let q = skip_from(s, p);
    proof {
        reveal_strlit("string");
        reveal_strlit("bool");
        reveal_strlit("number");
    }
    assert("string"@ =~= word_string());
    assert("bool"@ =~= word_bool());
    assert("number"@ =~= word_number());
    if word_at_pos(s, q, "string") {
        Some((q + 6, SchemaType::String))
    } else if word_at_pos(s, q, "bool") {
        Some((q + 4, SchemaType::Boolean))
    } else if word_at_pos(s, q, "number") {
        Some((q + 6, SchemaType::Number))
    } else {
        None
    }
}

/// Reads `key ":" type` from `p`.
fn schema_entry_from(s: &str, p: usize) -> (r: Option<(usize, SchemaEntry)>)
    requires
        p <= s@.len(),
    ensures
        match r {
            Some((q, e)) => schema_entry_at(s@, p as int) == Some((q as int, e@)) && p < q
                <= s@.len(),
            None => schema_entry_at(s@, p as int) is None,
        },
{
    let n = s.unicode_len();
    let k0 = skip_from(s, p);
    let k1 = name_end_from(s, k0, ':');
    let c = skip_from(s, k1);
    if k0 < k1 && c < n && s.get_char(c) == ':' {
        match schema_type_from(s, c + 1) {
            Some((q, t)) => {
                let name = s.substring_char(k0, k1).to_owned();
                Some((q, SchemaEntry { name, schema_type: t }))
            },
            None => None,
        }
    } else {
        None
    }
}

/// Parses a whole schema text: `key ":" type` entries, each part after skips of
/// white space and comments, then white space and comments up to the end. Fails,
/// with the text from where reading stopped, if that end is not reached.
pub fn parse_schema(input: &str) -> (r: Result<Schema, SyntaxError>)
    ensures
        ({
            let (items, stop) = schema_items(input@, 0);
            let end = skip_end(input@, stop);
            match r {
                Ok(sch) => end == input@.len() && sch@ == items,
                Err(e) => end != input@.len() && e.rest@ == input@.skip(end),
            }
        }),
{
    let n = input.unicode_len();
    let ghost s = input@;
    let mut entries: Vec<SchemaEntry> = Vec::new();
    let mut p: usize = 0;
    loop
        invariant
            n == s.len(),
            s == input@,
            p <= n,
            schema_items(s, 0).0 == entries@.map_values(|e: SchemaEntry| e@) + schema_items(
                s,
                p as int,
            ).0,
            schema_items(s, 0).1 == schema_items(s, p as int).1,
        ensures
            p <= n,
            schema_items(s, 0).0 == entries@.map_values(|e: SchemaEntry| e@),
            schema_items(s, 0).1 == p,
        decreases n - p,
    {
        let ghost before = entries@.map_values(|e: SchemaEntry| e@);
        match schema_entry_from(input, p) {
            Some((q, e)) => {
                let ghost rest = schema_items(s, q as int).0;
                assert(schema_items(s, p as int).0 == seq![e@] + rest);
                entries.push(e);
                assert(entries@.map_values(|e: SchemaEntry| e@) =~= before.push(e@));
                assert(before + (seq![e@] + rest) =~= before.push(e@) + rest);
                p = q;
            },
            None => {
                assert(before + seq![] =~= before);
                break;
            },
        }
    }
    let end = skip_from(input, p);
    if end == n {
        Ok(Schema { entries })
    } else {
        Err(SyntaxError { rest: rest_from(input, end).to_owned() })
    }
}

/// Reads a schema key after skipping: the characters up to white space or `:`,
/// at least one. Returns the rest of the input and the key.
pub fn schema_key(input: &str) -> (r: Option<(&str, &str)>)
    ensures
        ({
            let (k0, k1) = schema_key_span(input@, 0);
            match r {
                Some((rest, key)) => k0 < k1 && key@ == input@.subrange(k0, k1) && rest@
                    == input@.skip(k1),
                None => k0 == k1,
            }
        }),
{
    let k0 = skip_from(input, 0);
    let k1 = name_end_from(input, k0, ':');
    if k0 < k1 {
        Some((rest_from(input, k1), input.substring_char(k0, k1)))
    } else {
        None
    }
}

/// Reads a type keyword after skipping. Returns the rest of the input and the type.
pub fn schema_type(input: &str) -> (r: Option<(&str, SchemaType)>)
    ensures
        match r {
            Some((rest, t)) => schema_type_at(input@, 0) matches Some((q, tt)) && t == tt && rest@
                == input@.skip(q),
            None => schema_type_at(input@, 0) is None,
        },
{
    match schema_type_from(input, 0) {
        Some((q, t)) => Some((rest_from(input, q), t)),
        None => None,
    }
}

/// Reads `key ":" type`. Returns the rest of the input and the entry.
pub fn schema_entry(input: &str) -> (r: Option<(&str, SchemaEntry)>)
    ensures
        match r {
            Some((rest, e)) => schema_entry_at(input@, 0) matches Some((q, ee)) && e@ == ee
                && rest@ == input@.skip(q),
            None => schema_entry_at(input@, 0) is None,
        },
{
    match schema_entry_from(input, 0) {
        Some((q, e)) => Some((rest_from(input, q), e)),
        None => None,
    }
}

} // verus!
