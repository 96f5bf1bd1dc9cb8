//! Validation of a configuration against a schema.
use vstd::prelude::*;
use crate::config::SysctlMap;
use crate::types::{
    spec_infer, text_is, ErrorView, Schema, SchemaEntry, SchemaType, ValidationError,
};

verus! {

/// A line of a value declared `string` must be shorter than this many characters.
pub const MAX_LINE_CHARS: usize = 4096;

/// The names of a schema's entries, in order.
pub open spec fn names_of(s: Seq<(Seq<char>, SchemaType)>) -> Seq<Seq<char>> {
    s.map_values(|e: (Seq<char>, SchemaType)| e.0)
}

/// Entry `i` is the first of the schema with its name; lookup by name finds it.
pub open spec fn first_of_name(s: Seq<(Seq<char>, SchemaType)>, i: int) -> bool {
    !names_of(s).take(i).contains(s[i].0)
}

/// The `MAX_LINE_CHARS` characters of `v` from `i` on all lie in one line of `v`,
/// where lines end at `\n` and a `\r` just before a `\n` belongs to the line end.
pub open spec fn long_line_at(v: Seq<char>, i: int) -> bool {
    let n = MAX_LINE_CHARS as int;
    0 <= i && i + n <= v.len() && (forall|k: int| i <= k < i + n ==> #[trigger] v[k] != '\n')
        && !(v[i + n - 1] == '\r' && i + n < v.len() && v[i + n] == '\n')
}

/// Some line of `v` has at least `MAX_LINE_CHARS` characters.
pub open spec fn has_long_line(v: Seq<char>) -> bool {
    exists|i: int| long_line_at(v, i)
}

/// The error, if any, for a key present in both, declared `t`, with value `v`.
pub open spec fn entry_errors(name: Seq<char>, t: SchemaType, v: Seq<char>) -> Seq<ErrorView> {
    match t {
        SchemaType::String => if has_long_line(v) {
            seq![ErrorView::TooLongLine(name)]
        } else {
            seq![]
        },
        _ => if spec_infer(v) != t {
            seq![ErrorView::WrongType { key_name: name, expect: t, actual: spec_infer(v) }]
        } else {
            seq![]
        },
    }
}

/// One `MissingKey` for each distinct name among the first `n` entries that `c` lacks.
pub open spec fn missing_errors(
    s: Seq<(Seq<char>, SchemaType)>,
    c: Map<Seq<char>, (Seq<char>, bool)>,
    n: int,
) -> Seq<ErrorView>
    decreases n,
{
    if n <= 0 {
        seq![]
    } else {
        missing_errors(s, c, n - 1) + if first_of_name(s, n - 1) && !c.contains_key(s[n - 1].0) {
            seq![ErrorView::MissingKey(s[n - 1].0)]
        } else {
            seq![]
        }
    }
}

/// One `UnknownKey` for each of the first `n` configuration keys that `names` lacks.
pub open spec fn unknown_errors(names: Seq<Seq<char>>, keys: Seq<Seq<char>>, n: int) -> Seq<
    ErrorView,
>
    decreases n,
{
    if n <= 0 {
        seq![]
    } else {
        unknown_errors(names, keys, n - 1) + if !names.contains(keys[n - 1]) {
            seq![ErrorView::UnknownKey(keys[n - 1])]
        } else {
            seq![]
        }
    }
}

/// The type and length errors of the distinct names among the first `n` entries
/// that `c` has.
pub open spec fn type_errors(
    s: Seq<(Seq<char>, SchemaType)>,
    c: Map<Seq<char>, (Seq<char>, bool)>,
    n: int,
) -> Seq<ErrorView>
    decreases n,
{
    if n <= 0 {
        seq![]
    } else {
        type_errors(s, c, n - 1) + if first_of_name(s, n - 1) && c.contains_key(s[n - 1].0) {
            entry_errors(s[n - 1].0, s[n - 1].1, c[s[n - 1].0].0)
        } else {
            seq![]
        }
    }
}

/// Every violation of schema `s` by configuration `c`: the missing keys in schema
/// order, then the unknown keys in configuration order, then the type and length
/// errors in schema order.
pub open spec fn all_errors(s: Seq<(Seq<char>, SchemaType)>, c: SysctlMap) -> Seq<ErrorView> {
    missing_errors(s, c@, s.len() as int) + unknown_errors(
        names_of(s),
        c.key_seq(),
        c.key_seq().len() as int,
    ) + type_errors(s, c@, s.len() as int)
}

/// Whether some line of `v` has at least `MAX_LINE_CHARS` characters.
pub fn long_line(v: &str) -> (r: bool)
    ensures
        r == has_long_line(v@),
{
    let n = v.unicode_len();
    let ghost w = MAX_LINE_CHARS as int;
    let mut run: usize = 0;
    let mut i: usize = 0;
    while i < n
        invariant
            n == v@.len(),
            w == MAX_LINE_CHARS as int,
            0 <= run <= i <= n,
            forall|k: int| i - run <= k < i ==> #[trigger] v@[k] != '\n',
            i - run == 0 || v@[i - run - 1] == '\n',
            forall|j: int| 0 <= j && j + w <= i ==> !long_line_at(v@, j),
        decreases n - i,
    {
        let c = v.get_char(i);
        if c == '\n' {
            run = 0;
        } else {
            run = run + 1;
        }
        assert forall|j: int| 0 <= j && j + w == i + 1 && run < MAX_LINE_CHARS implies !long_line_at(
            v@,
            j,
        ) by {
            if c == '\n' {
                assert(v@[i as int] == '\n');
            } else {
                assert(v@[i + 1 - run - 1] == '\n');
            }
        }
        if run >= MAX_LINE_CHARS {
            let ends_crlf = c == '\r' && i + 1 < n && v.get_char(i + 1) == '\n';
            if !ends_crlf {
                assert(long_line_at(v@, i + 1 - w));
                return true;
            }
        }
        i = i + 1;
    }
    false
}

/// Whether the first `i` entries of `schema` hold an entry named `name`.
fn name_before(schema: &Schema, i: usize, name: &str) -> (r: bool)
    requires
        i <= schema@.len(),
    ensures
        r == names_of(schema@).take(i as int).contains(name@),
{
    let ghost ns = names_of(schema@).take(i as int);
    let mut j: usize = 0;
    while j < i
        invariant
            i <= schema@.len(),
            ns == names_of(schema@).take(i as int),
            0 <= j <= i,
            forall|k: int| 0 <= k < j ==> #[trigger] ns[k] != name@,
        decreases i - j,
    {
        if text_is(schema.entries[j].name.as_str(), name) {
            assert(ns[j as int] == name@);
            return true;
        }
        j = j + 1;
    }
    false
}

fn missing_keys(value: &SysctlMap, schema: &Schema) -> (r: Vec<ValidationError>)
    requires
        value.wf(),
    ensures
        r@.map_values(|e: ValidationError| e@) == missing_errors(
            schema@,
            value@,
            schema@.len() as int,
        ),
{
    let mut r: Vec<ValidationError> = Vec::new();
    let mut i: usize = 0;
    while i < schema.entries.len()
        invariant
            value.wf(),
            0 <= i <= schema@.len(),
            r@.map_values(|e: ValidationError| e@) == missing_errors(schema@, value@, i as int),
        decreases schema@.len() - i,
    {
        let entry: &SchemaEntry = &schema.entries[i];
        let name = entry.name.as_str();
        assert(schema@[i as int] == entry@);
        let ghost before = missing_errors(schema@, value@, i as int);
        let first = !name_before(schema, i, name);
        if first && value.get(name).is_none() {
            r.push(ValidationError::MissingKey(entry.name.clone()));
            assert(r@.map_values(|e: ValidationError| e@) =~= before + seq![
                ErrorView::MissingKey(name@),
            ]);
        } else {
            assert(before + seq![] =~= before);
        }
        i = i + 1;
    }
    r
}


fn unknown_keys(value: &SysctlMap, schema: &Schema) -> (r: Vec<ValidationError>)
    requires
        value.wf(),
    ensures
        r@.map_values(|e: ValidationError| e@) == unknown_errors(
            names_of(schema@),
            value.key_seq(),
            value.key_seq().len() as int,
        ),
{
    let mut r: Vec<ValidationError> = Vec::new();
    let mut i: usize = 0;
    let n = value.len();
    while i < n
        invariant
            value.wf(),
            n == value.key_seq().len(),
            0 <= i <= n,
            r@.map_values(|e: ValidationError| e@) == unknown_errors(
                names_of(schema@),
                value.key_seq(),
                i as int,
            ),
        decreases n - i,
    {
        let key = value.key_at(i);
        let known = name_before(schema, schema.entries.len(), key.as_str());
        assert(names_of(schema@).take(schema@.len() as int) =~= names_of(schema@));
        let ghost before = unknown_errors(names_of(schema@), value.key_seq(), i as int);
        if !known {
            r.push(ValidationError::UnknownKey(key.clone()));
            assert(r@.map_values(|e: ValidationError| e@) =~= before.push(
                ErrorView::UnknownKey(key@),
            ));
        }
        assert(before + seq![] =~= before);
        assert(before + seq![ErrorView::UnknownKey(key@)] =~= before.push(
            ErrorView::UnknownKey(key@),
        ));
        i = i + 1;
    }
    r
}

/// The type or length error, if any, of a key declared `t` whose value is `v`.
fn check_entry(name: &String, t: SchemaType, v: &str) -> (r: Option<ValidationError>)
    ensures
        match r {
            Some(e) => entry_errors(name@, t, v@) == seq![e@],
            None => entry_errors(name@, t, v@) == Seq::<ErrorView>::empty(),
        },
{
    match t {
        SchemaType::String => {
            if long_line(v) {
                Some(ValidationError::TooLongLine(name.clone()))
            } else {
                None
            }
        },
        _ => {
            let actual = SchemaType::from_str(v);
            if actual != t {
                Some(ValidationError::WrongType { key_name: name.clone(), expect: t, actual })
            } else {
                None
            }
        },
    }
}

fn wrong_types(value: &SysctlMap, schema: &Schema) -> (r: Vec<ValidationError>)
    requires
        value.wf(),
    ensures
        r@.map_values(|e: ValidationError| e@) == type_errors(
            schema@,
            value@,
            schema@.len() as int,
        ),
{
    let mut r: Vec<ValidationError> = Vec::new();
    let mut i: usize = 0;
    while i < schema.entries.len()
        invariant
            value.wf(),
            0 <= i <= schema@.len(),
            r@.map_values(|e: ValidationError| e@) == type_errors(schema@, value@, i as int),
        decreases schema@.len() - i,
    {
        let entry: &SchemaEntry = &schema.entries[i];
        let name = entry.name.as_str();
        assert(schema@[i as int] == entry@);
        let ghost before = type_errors(schema@, value@, i as int);
        let first = !name_before(schema, i, name);
        if first {
            match value.get(name) {
                Some(v) => {
                    match check_entry(&entry.name, entry.schema_type, v.value.as_str()) {
                        Some(e) => {
                            r.push(e);
                            assert(r@.map_values(|e: ValidationError| e@) =~= before + seq![e@]);
                        },
                        None => {
                            assert(before + seq![] =~= before);
                        },
                    }
                },
                None => {
                    assert(before + seq![] =~= before);
                },
            }
        } else {
            assert(before + seq![] =~= before);
        }
        i = i + 1;
    }
    r
}

/// Checks a configuration against a schema and reports every violation: a
/// `MissingKey` for each declared name that the configuration lacks, an
/// `UnknownKey` for each configuration key that the schema lacks, and for each
/// key in both a `TooLongLine` (declared `string`) or a `WrongType` (declared
/// `bool` or `number`) where the value breaks the rule. Where a name is declared
/// twice, its first entry counts.
pub fn validate_by_schema(value: &SysctlMap, schema: &Schema) -> (r: Result<(), Vec<ValidationError>>)
    requires
        value.wf(),
    ensures
        match r {
            Ok(()) => all_errors(schema@, *value).len() == 0,
            Err(errs) => errs@.map_values(|e: ValidationError| e@) == all_errors(schema@, *value)
                && errs@.len() > 0,
        },
{
    let mut errors = missing_keys(value, schema);
    let mut unknown = unknown_keys(value, schema);
    let mut wrong = wrong_types(value, schema);
    let ghost (a, b, c) = (errors@, unknown@, wrong@);
    errors.append(&mut unknown);
    errors.append(&mut wrong);
    assert(errors@ == a + b + c);
    assert(errors@.map_values(|e: ValidationError| e@) =~= a.map_values(|e: ValidationError| e@)
        + b.map_values(|e: ValidationError| e@) + c.map_values(|e: ValidationError| e@));
    if errors.len() == 0 {
        Ok(())
    } else {
        Err(errors)
    }
}


/// Lookup of `k` in `s` finds, as its first entry of that name, one declared `t`.
pub open spec fn declared_first(s: Seq<(Seq<char>, SchemaType)>, k: Seq<char>, t: SchemaType) -> bool {
    exists|i: int| 0 <= i < s.len() && first_of_name(s, i) && s[i].0 == k && s[i].1 == t
}

/// The key that an error is about.
pub open spec fn error_key(e: ErrorView) -> Seq<char> {
    match e {
        ErrorView::MissingKey(k) => k,
        ErrorView::UnknownKey(k) => k,
        ErrorView::WrongType { key_name, .. } => key_name,
        ErrorView::TooLongLine(k) => k,
    }
}

proof fn lemma_concat_contains<A>(a: Seq<A>, b: Seq<A>, x: A)
    ensures
        (a + b).contains(x) <==> a.contains(x) || b.contains(x),
{
    if a.contains(x) {
        let i = choose|i: int| 0 <= i < a.len() && a[i] == x;
        assert((a + b)[i] == x);
    }
    if b.contains(x) {
        let i = choose|i: int| 0 <= i < b.len() && b[i] == x;
        assert((a + b)[a.len() + i] == x);
    }
    if (a + b).contains(x) {
        let i = choose|i: int| 0 <= i < (a + b).len() && (a + b)[i] == x;
        if i < a.len() {
            assert(a[i] == x);
        } else {
            assert(b[i - a.len()] == x);
        }
    }
}

proof fn lemma_concat_no_duplicates<A>(a: Seq<A>, b: Seq<A>)
    requires
        a.no_duplicates(),
        b.no_duplicates(),
        forall|x: A| a.contains(x) ==> !b.contains(x),
    ensures
        (a + b).no_duplicates(),
{
    let c = a + b;
    assert forall|i: int, j: int| 0 <= i < c.len() && 0 <= j < c.len() && i != j implies c[i]
        != c[j] by {
        if i < a.len() && j >= a.len() {
            assert(a.contains(c[i]));
            assert(b[j - a.len()] == c[j]);
        } else if j < a.len() && i >= a.len() {
            assert(a.contains(c[j]));
            assert(b[i - a.len()] == c[i]);
        } else if i >= a.len() {
            assert(b[i - a.len()] == c[i] && b[j - a.len()] == c[j]);
        }
    }
}

/// A name that `s` holds has a first entry.
proof fn lemma_first_entry(s: Seq<(Seq<char>, SchemaType)>, j: int)
    requires
        0 <= j < s.len(),
    ensures
        exists|i: int| 0 <= i <= j && first_of_name(s, i) && s[i].0 == s[j].0,
    decreases j,
{
    let ns = names_of(s);
    if ns.take(j).contains(s[j].0) {
        let i = choose|i: int| 0 <= i < ns.take(j).len() && ns.take(j)[i] == s[j].0;
        lemma_first_entry(s, i);
    } else {
        assert(first_of_name(s, j));
    }
}

proof fn lemma_missing(
    s: Seq<(Seq<char>, SchemaType)>,
    c: Map<Seq<char>, (Seq<char>, bool)>,
    n: int,
)
    requires
        0 <= n <= s.len(),
    ensures
        missing_errors(s, c, n).no_duplicates(),
        forall|x: ErrorView| #[trigger]
            missing_errors(s, c, n).contains(x) <==> exists|i: int|
                0 <= i < n && first_of_name(s, i) && !c.contains_key(s[i].0) && x
                    == ErrorView::MissingKey(s[i].0),
    decreases n,
{
    if n > 0 {
        lemma_missing(s, c, n - 1);
        let a = missing_errors(s, c, n - 1);
        let t = if first_of_name(s, n - 1) && !c.contains_key(s[n - 1].0) {
            seq![ErrorView::MissingKey(s[n - 1].0)]
        } else {
            seq![]
        };
        assert forall|x: ErrorView| a.contains(x) implies !t.contains(x) by {
            let i = choose|i: int|
                0 <= i < n - 1 && first_of_name(s, i) && !c.contains_key(s[i].0) && x
                    == ErrorView::MissingKey(s[i].0);
            if t.contains(x) {
                assert(t[0] == x);
                assert(names_of(s).take(n - 1)[i] == s[n - 1].0);
            }
        }
        lemma_concat_no_duplicates(a, t);
        assert forall|x: ErrorView| #[trigger]
            missing_errors(s, c, n).contains(x) <==> exists|i: int|
                0 <= i < n && first_of_name(s, i) && !c.contains_key(s[i].0) && x
                    == ErrorView::MissingKey(s[i].0) by {
            lemma_concat_contains(a, t, x);
            if t.contains(x) {
                assert(t[0] == x);
                assert(first_of_name(s, n - 1) && !c.contains_key(s[n - 1].0) && x
                    == ErrorView::MissingKey(s[n - 1].0));
            }
            if exists|i: int|
                0 <= i < n && first_of_name(s, i) && !c.contains_key(s[i].0) && x
                    == ErrorView::MissingKey(s[i].0) {
                let i = choose|i: int|
                    0 <= i < n && first_of_name(s, i) && !c.contains_key(s[i].0) && x
                        == ErrorView::MissingKey(s[i].0);
                if i == n - 1 {
                    assert(t[0] == x);
                } else {
                    assert(a.contains(x));
                }
            }
        }
    }
}

proof fn lemma_unknown(names: Seq<Seq<char>>, keys: Seq<Seq<char>>, n: int)
    requires
        0 <= n <= keys.len(),
        keys.no_duplicates(),
    ensures
        unknown_errors(names, keys, n).no_duplicates(),
        forall|x: ErrorView| #[trigger]
            unknown_errors(names, keys, n).contains(x) <==> exists|i: int|
                0 <= i < n && !names.contains(keys[i]) && x == ErrorView::UnknownKey(keys[i]),
    decreases n,
{
    if n > 0 {
        lemma_unknown(names, keys, n - 1);
        let a = unknown_errors(names, keys, n - 1);
        let t = if !names.contains(keys[n - 1]) {
            seq![ErrorView::UnknownKey(keys[n - 1])]
        } else {
            seq![]
        };
        assert forall|x: ErrorView| a.contains(x) implies !t.contains(x) by {
            let i = choose|i: int|
                0 <= i < n - 1 && !names.contains(keys[i]) && x == ErrorView::UnknownKey(keys[i]);
            if t.contains(x) {
                assert(t[0] == x);
            }
        }
        lemma_concat_no_duplicates(a, t);
        assert forall|x: ErrorView| #[trigger]
            unknown_errors(names, keys, n).contains(x) <==> exists|i: int|
                0 <= i < n && !names.contains(keys[i]) && x == ErrorView::UnknownKey(keys[i]) by {
            lemma_concat_contains(a, t, x);
            if t.contains(x) {
                assert(t[0] == x);
                assert(!names.contains(keys[n - 1]) && x == ErrorView::UnknownKey(keys[n - 1]));
            }
            if exists|i: int|
                0 <= i < n && !names.contains(keys[i]) && x == ErrorView::UnknownKey(keys[i]) {
                let i = choose|i: int|
                    0 <= i < n && !names.contains(keys[i]) && x == ErrorView::UnknownKey(keys[i]);
                if i == n - 1 {
                    assert(t[0] == x);
                } else {
                    assert(a.contains(x));
                }
            }
        }
    }
}

proof fn lemma_types(
    s: Seq<(Seq<char>, SchemaType)>,
    c: Map<Seq<char>, (Seq<char>, bool)>,
    n: int,
)
    requires
        0 <= n <= s.len(),
    ensures
        type_errors(s, c, n).no_duplicates(),
        forall|x: ErrorView| #[trigger]
            type_errors(s, c, n).contains(x) <==> exists|i: int|
                0 <= i < n && first_of_name(s, i) && c.contains_key(s[i].0) && entry_errors(
                    s[i].0,
                    s[i].1,
                    c[s[i].0].0,
                ).contains(x),
    decreases n,
{
    if n > 0 {
        lemma_types(s, c, n - 1);
        let a = type_errors(s, c, n - 1);
        let k = s[n - 1].0;
        let t = if first_of_name(s, n - 1) && c.contains_key(k) {
            entry_errors(k, s[n - 1].1, c[k].0)
        } else {
            seq![]
        };
        assert forall|x: ErrorView| a.contains(x) implies !t.contains(x) by {
            let i = choose|i: int|
                0 <= i < n - 1 && first_of_name(s, i) && c.contains_key(s[i].0) && entry_errors(
                    s[i].0,
                    s[i].1,
                    c[s[i].0].0,
                ).contains(x);
            let ei = entry_errors(s[i].0, s[i].1, c[s[i].0].0);
            assert(ei.len() <= 1);
            assert(ei[0] == x);
            assert(error_key(x) == s[i].0);
            if t.contains(x) {
                assert(t[0] == x);
                assert(error_key(x) == k);
                assert(names_of(s).take(n - 1)[i] == k);
            }
        }
        lemma_concat_no_duplicates(a, t);
        assert forall|x: ErrorView| #[trigger]
            type_errors(s, c, n).contains(x) <==> exists|i: int|
                0 <= i < n && first_of_name(s, i) && c.contains_key(s[i].0) && entry_errors(
                    s[i].0,
                    s[i].1,
                    c[s[i].0].0,
                ).contains(x) by {
            lemma_concat_contains(a, t, x);
        }
    }
}


/// Validation reports each violation exactly once and nothing else: a
/// `MissingKey` for each name that the schema declares and the configuration
/// lacks, an `UnknownKey` for each configuration key that the schema does not
/// declare, and for each key in both, judged by its first declaration, a
/// `TooLongLine` where it is declared `string` and a line of its value is too
/// long, or a `WrongType` where it is declared `bool` or `number` and its value
/// is inferred as another type.
pub proof fn lemma_validation_complete(s: Seq<(Seq<char>, SchemaType)>, c: SysctlMap)
    requires
        c.wf(),
    ensures
        all_errors(s, c).no_duplicates(),
        forall|k: Seq<char>|
            #![trigger all_errors(s, c).contains(ErrorView::MissingKey(k))]
            all_errors(s, c).contains(ErrorView::MissingKey(k)) <==> names_of(s).contains(k)
                && !c@.contains_key(k),
        forall|k: Seq<char>|
            #![trigger all_errors(s, c).contains(ErrorView::UnknownKey(k))]
            all_errors(s, c).contains(ErrorView::UnknownKey(k)) <==> c@.contains_key(k)
                && !names_of(s).contains(k),
        forall|k: Seq<char>|
            #![trigger all_errors(s, c).contains(ErrorView::TooLongLine(k))]
            all_errors(s, c).contains(ErrorView::TooLongLine(k)) <==> c@.contains_key(k)
                && declared_first(s, k, SchemaType::String) && has_long_line(c@[k].0),
        forall|k: Seq<char>, x: SchemaType, y: SchemaType|
            #![trigger all_errors(s, c).contains(ErrorView::WrongType { key_name: k, expect: x, actual: y })]
            all_errors(s, c).contains(ErrorView::WrongType { key_name: k, expect: x, actual: y })
                <==> c@.contains_key(k) && declared_first(s, k, x) && x != SchemaType::String && y
                == spec_infer(c@[k].0) && y != x,
{
    let m = c@;
    let ns = names_of(s);
    let keys = c.key_seq();
    c.lemma_lengths();
    lemma_missing(s, m, s.len() as int);
    lemma_unknown(ns, keys, keys.len() as int);
    lemma_types(s, m, s.len() as int);
    let a = missing_errors(s, m, s.len() as int);
    let b = unknown_errors(ns, keys, keys.len() as int);
    let t = type_errors(s, m, s.len() as int);
    assert(all_errors(s, c) == a + b + t);
    assert forall|x: ErrorView| a.contains(x) implies !b.contains(x) && x is MissingKey by {}
    assert forall|x: ErrorView| b.contains(x) implies x is UnknownKey by {}
    assert forall|x: ErrorView| t.contains(x) implies (x is TooLongLine || x is WrongType) by {
        let i = choose|i: int|
            0 <= i < s.len() && first_of_name(s, i) && m.contains_key(s[i].0) && entry_errors(
                s[i].0,
                s[i].1,
                m[s[i].0].0,
            ).contains(x);
        let ei = entry_errors(s[i].0, s[i].1, m[s[i].0].0);
        assert(ei[0] == x);
    }
    lemma_concat_no_duplicates(a, b);
    assert forall|x: ErrorView| (a + b).contains(x) implies !t.contains(x) by {
        lemma_concat_contains(a, b, x);
    }
    lemma_concat_no_duplicates(a + b, t);
    assert forall|x: ErrorView| #[trigger] all_errors(s, c).contains(x) <==> a.contains(x)
        || b.contains(x) || t.contains(x) by {
        lemma_concat_contains(a, b, x);
        lemma_concat_contains(a + b, t, x);
    }
    assert forall|k: Seq<char>| ns.contains(k) <==> exists|i: int|
        0 <= i < s.len() && first_of_name(s, i) && s[i].0 == k by {
        if ns.contains(k) {
            let j = choose|j: int| 0 <= j < ns.len() && ns[j] == k;
            lemma_first_entry(s, j);
        }
        if exists|i: int| 0 <= i < s.len() && first_of_name(s, i) && s[i].0 == k {
            let i = choose|i: int| 0 <= i < s.len() && first_of_name(s, i) && s[i].0 == k;
            assert(ns[i] == k);
        }
    }
    assert forall|k: Seq<char>| #[trigger] m.contains_key(k) <==> keys.contains(k) by {}
    assert forall|k: Seq<char>|
        all_errors(s, c).contains(ErrorView::UnknownKey(k)) <==> m.contains_key(k) && !ns.contains(
            k,
        ) by {
        if m.contains_key(k) && !ns.contains(k) {
            let i = choose|i: int| 0 <= i < keys.len() && keys[i] == k;
            assert(b.contains(ErrorView::UnknownKey(k)));
        }
    }
    assert forall|k: Seq<char>|
        all_errors(s, c).contains(ErrorView::TooLongLine(k)) <==> m.contains_key(k)
            && declared_first(s, k, SchemaType::String) && has_long_line(m[k].0) by {
        let x = ErrorView::TooLongLine(k);
        if m.contains_key(k) && declared_first(s, k, SchemaType::String) && has_long_line(m[k].0) {
            let i = choose|i: int|
                0 <= i < s.len() && first_of_name(s, i) && s[i].0 == k && s[i].1
                    == SchemaType::String;
            assert(entry_errors(s[i].0, s[i].1, m[s[i].0].0)[0] == x);
            assert(t.contains(x));
        }
        if t.contains(x) {
            let i = choose|i: int|
                0 <= i < s.len() && first_of_name(s, i) && m.contains_key(s[i].0) && entry_errors(
                    s[i].0,
                    s[i].1,
                    m[s[i].0].0,
                ).contains(x);
            let ei = entry_errors(s[i].0, s[i].1, m[s[i].0].0);
            assert(ei[0] == x);
        }
    }
    assert forall|k: Seq<char>, x: SchemaType, y: SchemaType|
        all_errors(s, c).contains(ErrorView::WrongType { key_name: k, expect: x, actual: y })
            <==> m.contains_key(k) && declared_first(s, k, x) && x != SchemaType::String && y
            == spec_infer(m[k].0) && y != x by {
        let e = ErrorView::WrongType { key_name: k, expect: x, actual: y };
        if m.contains_key(k) && declared_first(s, k, x) && x != SchemaType::String && y
            == spec_infer(m[k].0) && y != x {
            let i = choose|i: int|
                0 <= i < s.len() && first_of_name(s, i) && s[i].0 == k && s[i].1 == x;
            assert(entry_errors(s[i].0, s[i].1, m[s[i].0].0)[0] == e);
            assert(t.contains(e));
        }
        if t.contains(e) {
            let i = choose|i: int|
                0 <= i < s.len() && first_of_name(s, i) && m.contains_key(s[i].0) && entry_errors(
                    s[i].0,
                    s[i].1,
                    m[s[i].0].0,
                ).contains(e);
            let ei = entry_errors(s[i].0, s[i].1, m[s[i].0].0);
            assert(ei[0] == e);
            assert(declared_first(s, k, x));
        }
    }
}


/// The first entry of `s` named `k` declares a type that `k`'s value in `m` breaks.
pub open spec fn violates(
    s: Seq<(Seq<char>, SchemaType)>,
    m: Map<Seq<char>, (Seq<char>, bool)>,
    k: Seq<char>,
) -> bool {
    exists|i: int|
        0 <= i < s.len() && first_of_name(s, i) && s[i].0 == k && entry_errors(
            k,
            s[i].1,
            m[k].0,
        ).len() > 0
}

proof fn lemma_take_to_set<A>(q: Seq<A>, n: int)
    requires
        0 < n <= q.len(),
    ensures
        q.take(n).to_set() == q.take(n - 1).to_set().insert(q[n - 1]),
{
    assert forall|x: A| #[trigger] q.take(n).to_set().contains(x) <==> q.take(n - 1).to_set().insert(
        q[n - 1],
    ).contains(x) by {
        if q.take(n).contains(x) {
            let j = choose|j: int| 0 <= j < n && #[trigger] q.take(n)[j] == x;
            if j < n - 1 {
                assert(q.take(n - 1)[j] == x);
            }
        }
        if q.take(n - 1).contains(x) {
            let j = choose|j: int| 0 <= j < n - 1 && #[trigger] q.take(n - 1)[j] == x;
            assert(q.take(n)[j] == x);
        }
        if x == q[n - 1] {
            assert(q.take(n)[n - 1] == x);
        }
    }
    assert(q.take(n).to_set() =~= q.take(n - 1).to_set().insert(q[n - 1]));
}

proof fn lemma_missing_count(
    s: Seq<(Seq<char>, SchemaType)>,
    m: Map<Seq<char>, (Seq<char>, bool)>,
    n: int,
)
    requires
        0 <= n <= s.len(),
    ensures
        names_of(s).take(n).to_set().difference(m.dom()).finite(),
        missing_errors(s, m, n).len() == names_of(s).take(n).to_set().difference(m.dom()).len(),
    decreases n,
{
    let ns = names_of(s);
    if n == 0 {
        assert(ns.take(0).to_set().difference(m.dom()) =~= Set::<Seq<char>>::empty());
    } else {
        lemma_missing_count(s, m, n - 1);
        lemma_take_to_set(ns, n);
        let d0 = ns.take(n - 1).to_set().difference(m.dom());
        let d1 = ns.take(n).to_set().difference(m.dom());
        let k = ns[n - 1];
        assert(k == s[n - 1].0);
        if first_of_name(s, n - 1) && !m.contains_key(k) {
            assert(d1 =~= d0.insert(k));
            assert(!d0.contains(k));
        } else {
            assert(d1 =~= d0);
        }
    }
}

proof fn lemma_unknown_count(names: Seq<Seq<char>>, keys: Seq<Seq<char>>, n: int)
    requires
        0 <= n <= keys.len(),
        keys.no_duplicates(),
    ensures
        keys.take(n).to_set().difference(names.to_set()).finite(),
        unknown_errors(names, keys, n).len() == keys.take(n).to_set().difference(
            names.to_set(),
        ).len(),
    decreases n,
{
    if n == 0 {
        assert(keys.take(0).to_set().difference(names.to_set()) =~= Set::<Seq<char>>::empty());
    } else {
        lemma_unknown_count(names, keys, n - 1);
        lemma_take_to_set(keys, n);
        let d0 = keys.take(n - 1).to_set().difference(names.to_set());
        let d1 = keys.take(n).to_set().difference(names.to_set());
        let k = keys[n - 1];
        if !names.contains(k) {
            assert(d1 =~= d0.insert(k));
            if d0.contains(k) {
                let j = choose|j: int| 0 <= j < n - 1 && #[trigger] keys.take(n - 1)[j] == k;
                assert(keys[j] == k);
            }
        } else {
            assert(d1 =~= d0);
        }
    }
}

proof fn lemma_type_count(
    s: Seq<(Seq<char>, SchemaType)>,
    m: Map<Seq<char>, (Seq<char>, bool)>,
    n: int,
)
    requires
        0 <= n <= s.len(),
    ensures
        names_of(s).take(n).to_set().filter(
            |k: Seq<char>| m.contains_key(k) && violates(s, m, k),
        ).finite(),
        type_errors(s, m, n).len() == names_of(s).take(n).to_set().filter(
            |k: Seq<char>| m.contains_key(k) && violates(s, m, k),
        ).len(),
    decreases n,
{
    let ns = names_of(s);
    let f = |k: Seq<char>| m.contains_key(k) && violates(s, m, k);
    if n == 0 {
        assert(ns.take(0).to_set().filter(f) =~= Set::<Seq<char>>::empty());
    } else {
        lemma_type_count(s, m, n - 1);
        lemma_take_to_set(ns, n);
        let b0 = ns.take(n - 1).to_set().filter(f);
        let b1 = ns.take(n).to_set().filter(f);
        let k = ns[n - 1];
        assert(k == s[n - 1].0);
        let t = if first_of_name(s, n - 1) && m.contains_key(k) {
            entry_errors(k, s[n - 1].1, m[k].0)
        } else {
            seq![]
        };
        assert(type_errors(s, m, n) == type_errors(s, m, n - 1) + t);
        if first_of_name(s, n - 1) {
            assert(!b0.contains(k));
            if m.contains_key(k) && entry_errors(k, s[n - 1].1, m[k].0).len() > 0 {
                assert(violates(s, m, k));
                assert(b1 =~= b0.insert(k));
            } else {
                if m.contains_key(k) && violates(s, m, k) {
                    let i = choose|i: int|
                        0 <= i < s.len() && first_of_name(s, i) && s[i].0 == k && entry_errors(
                            k,
                            s[i].1,
                            m[k].0,
                        ).len() > 0;
                    if i < n - 1 {
                        assert(ns.take(n - 1)[i] == k);
                    } else if i > n - 1 {
                        assert(ns.take(i)[n - 1] == k);
                    }
                }
                assert(b1 =~= b0);
            }
        } else {
            assert(b1 =~= b0);
        }
    }
}

/// The number of errors is the number of declared names that the
/// configuration lacks, plus the number of configuration keys that the schema
/// does not declare, plus the number of keys in both whose value breaks the
/// rule of the key's first declaration.
pub proof fn lemma_error_count(s: Seq<(Seq<char>, SchemaType)>, c: SysctlMap)
    requires
        c.wf(),
    ensures
        all_errors(s, c).len() == names_of(s).to_set().difference(c@.dom()).len() + c@.dom().difference(
            names_of(s).to_set(),
        ).len() + names_of(s).to_set().filter(
            |k: Seq<char>| c@.contains_key(k) && violates(s, c@, k),
        ).len(),
{
    let ns = names_of(s);
    let keys = c.key_seq();
    c.lemma_lengths();
    lemma_missing_count(s, c@, s.len() as int);
    lemma_unknown_count(ns, keys, keys.len() as int);
    lemma_type_count(s, c@, s.len() as int);
    assert(ns.take(s.len() as int) =~= ns);
    assert(keys.take(keys.len() as int) =~= keys);
    assert(keys.to_set() =~= c@.dom());
}

} // verus!
