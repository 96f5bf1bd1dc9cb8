//! The library's data: declared types and their inference from raw text,
//! configuration values, schemas and validation errors.
use vstd::prelude::*;

verus! {

/// The type that a schema declares for a key, and the type inferred for a raw value.
///
/// This enumeration and the inference in `SchemaType::from_str` belong together:
/// a new variant needs a new rule in `spec_infer` and in `from_str`.
#[derive(Debug, Clone, Copy, PartialEq, Eq, Structural)]
pub enum SchemaType {
    String,
    Boolean,
    Number,
}

pub open spec fn is_digit(c: char) -> bool {
    '0' <= c && c <= '9'
}

pub open spec fn all_digits(s: Seq<char>) -> bool {
    forall|i: int| 0 <= i < s.len() ==> is_digit(#[trigger] s[i])
}

pub open spec fn is_exp_mark(c: char) -> bool {
    c == 'e' || c == 'E'
}

pub open spec fn is_sign(c: char) -> bool {
    c == '+' || c == '-'
}

/// `s` without one leading sign, if it has one.
pub open spec fn unsigned_part(s: Seq<char>) -> Seq<char> {
    if s.len() > 0 && is_sign(s[0]) {
        s.drop_first()
    } else {
        s
    }
}

/// `Digit+ | Digit+ '.' Digit* | Digit* '.' Digit+`
pub open spec fn is_mantissa(s: Seq<char>) -> bool {
    (s.len() > 0 && all_digits(s)) || (s.len() > 1 && exists|d: int|
        0 <= d < s.len() && #[trigger] s[d] == '.' && all_digits(s.take(d)) && all_digits(
            s.skip(d + 1),
        ))
}

/// The digits of an exponent, after its `e`: `Sign? Digit+`
pub open spec fn is_exponent(s: Seq<char>) -> bool {
    unsigned_part(s).len() > 0 && all_digits(unsigned_part(s))
}

/// `Mantissa ('e' Exponent)?`, where the `e` may be of either case.
pub open spec fn is_number_body(s: Seq<char>) -> bool {
    is_mantissa(s) || exists|m: int|
        0 <= m < s.len() && #[trigger] is_exp_mark(s[m]) && is_mantissa(s.take(m)) && is_exponent(
            s.skip(m + 1),
        )
}

/// `c` is `w`, or the capital ASCII letter of the lower-case `w`.
pub open spec fn same_letter(c: char, w: char) -> bool {
    c == w || ('A' <= c && c <= 'Z' && (c as u32) + 32 == (w as u32))
}

/// `s` equals the lower-case word `w` when ASCII letters are compared without case.
pub open spec fn equals_ignoring_case(s: Seq<char>, w: Seq<char>) -> bool {
    s.len() == w.len() && forall|i: int| 0 <= i < s.len() ==> same_letter(#[trigger] s[i], w[i])
}

pub open spec fn word_inf() -> Seq<char> {
    seq!['i', 'n', 'f']
}

pub open spec fn word_infinity() -> Seq<char> {
    seq!['i', 'n', 'f', 'i', 'n', 'i', 't', 'y']
}

pub open spec fn word_nan() -> Seq<char> {
    seq!['n', 'a', 'n']
}

pub open spec fn word_true() -> Seq<char> {
    seq!['t', 'r', 'u', 'e']
}

pub open spec fn word_false() -> Seq<char> {
    seq!['f', 'a', 'l', 's', 'e']
}

/// The text that Rust's parser of floating-point numbers accepts:
/// `Sign? ('inf' | 'infinity' | 'nan' | Number)`, case-insensitive.
pub open spec fn is_float_literal(s: Seq<char>) -> bool {
    let u = unsigned_part(s);
    equals_ignoring_case(u, word_inf()) || equals_ignoring_case(u, word_infinity())
        || equals_ignoring_case(u, word_nan()) || is_number_body(u)
}

/// The type inferred for a raw value: `true` and `false` are booleans, a
/// floating-point literal is a number, and anything else is a string.
pub open spec fn spec_infer(s: Seq<char>) -> SchemaType {
    if s == word_true() || s == word_false() {
        SchemaType::Boolean
    } else if is_float_literal(s) {
        SchemaType::Number
    } else {
        SchemaType::String
    }
}


/// Whether `s[a..b]` holds decimal digits only.
fn digits_in(s: &str, a: usize, b: usize) -> (r: bool)
    requires
        a <= b <= s@.len(),
    ensures
        r == all_digits(s@.subrange(a as int, b as int)),
{
    let mut i: usize = a;
    while i < b
        invariant
            a <= i <= b <= s@.len(),
            all_digits(s@.subrange(a as int, i as int)),
        decreases b - i,
    {
        let c = s.get_char(i);
        if !('0' <= c && c <= '9') {
            assert(s@.subrange(a as int, b as int)[i - a] == c);
            return false;
        }
        assert forall|k: int| 0 <= k < i + 1 - a implies is_digit(
            #[trigger] s@.subrange(a as int, i + 1)[k],
        ) by {
            if k < i - a {
                assert(s@.subrange(a as int, i + 1)[k] == s@.subrange(a as int, i as int)[k]);
            }
        }
        i = i + 1;
    }
    true
}

/// Whether `s[a..b]` is a mantissa.
fn mantissa_in(s: &str, a: usize, b: usize) -> (r: bool)
    requires
        a <= b <= s@.len(),
    ensures
        r == is_mantissa(s@.subrange(a as int, b as int)),
{
    let ghost t = s@.subrange(a as int, b as int);
    if a == b {
        return false;
    }
    if digits_in(s, a, b) {
        return true;
    }
    let mut i: usize = a;
    while i < b
        invariant
            a <= i <= b <= s@.len(),
            t == s@.subrange(a as int, b as int),
            forall|k: int| 0 <= k < i - a ==> #[trigger] t[k] != '.',
        decreases b - i,
    {
        if s.get_char(i) == '.' {
            let ghost d = i - a;
            assert(t[d] == '.');
            let r = b - a > 1 && digits_in(s, a, i) && digits_in(s, i + 1, b);
            assert(t.take(d) =~= s@.subrange(a as int, i as int));
            assert(t.skip(d + 1) =~= s@.subrange(i + 1, b as int));
            proof {
                if !r && t.len() > 1 {
                    assert forall|e: int| 0 <= e < t.len() && #[trigger] t[e] == '.' implies !(
                    all_digits(t.take(e)) && all_digits(t.skip(e + 1))) by {
                        if e > d {
                            assert(t.take(e)[d] == '.');
                        }
                    }
                }
            }
            return r;
        }
        assert(t[i - a] == s@[i as int]);
        i = i + 1;
    }
    false
}


/// Whether `s[a..b]` is an exponent.
fn exponent_in(s: &str, a: usize, b: usize) -> (r: bool)
    requires
        a <= b <= s@.len(),
    ensures
        r == is_exponent(s@.subrange(a as int, b as int)),
{
    let ghost t = s@.subrange(a as int, b as int);
    let mut u: usize = a;
    if a < b {
        let c = s.get_char(a);
        if c == '+' || c == '-' {
            u = a + 1;
        }
    }
    assert(unsigned_part(t) =~= s@.subrange(u as int, b as int));
    u < b && digits_in(s, u, b)
}

/// Whether `s[a..b]` is a number body: a mantissa with an optional exponent.
fn number_body_in(s: &str, a: usize, b: usize) -> (r: bool)
    requires
        a <= b <= s@.len(),
    ensures
        r == is_number_body(s@.subrange(a as int, b as int)),
{
    let ghost t = s@.subrange(a as int, b as int);
    let mut i: usize = a;
    while i < b
        invariant
            a <= i <= b <= s@.len(),
            t == s@.subrange(a as int, b as int),
            forall|k: int| 0 <= k < i - a ==> !is_exp_mark(#[trigger] t[k]),
        decreases b - i,
    {
        let c = s.get_char(i);
        assert(t[i - a] == c);
        if c == 'e' || c == 'E' {
            let ghost m = i - a;
            let r = mantissa_in(s, a, i) && exponent_in(s, i + 1, b);
            assert(t.take(m) =~= s@.subrange(a as int, i as int));
            assert(t.skip(m + 1) =~= s@.subrange(i + 1, b as int));
            assert(is_exp_mark(t[m]));
            proof {
                if is_mantissa(t) {
                    let d = choose|d: int|
                        0 <= d < t.len() && #[trigger] t[d] == '.' && all_digits(t.take(d))
                            && all_digits(t.skip(d + 1));
                    if t.len() > 0 && all_digits(t) {
                        assert(is_digit(t[m]));
                    } else if d < m {
                        assert(t.skip(d + 1)[m - d - 1] == t[m]);
                    } else {
                        assert(t.take(d)[m] == t[m]);
                    }
                }
                if !r {
                    assert forall|e: int| 0 <= e < t.len() && #[trigger] is_exp_mark(t[e]) implies !(
                    is_mantissa(t.take(e)) && is_exponent(t.skip(e + 1))) by {
                        if e < m {
                            assert(!is_exp_mark(t[e]));
                        } else if e > m {
                            let v = t.take(e);
                            assert(v[m] == t[m]);
                            if is_mantissa(v) {
                                if v.len() > 0 && all_digits(v) {
                                    assert(is_digit(v[m]));
                                } else {
                                    let d = choose|d: int|
                                        0 <= d < v.len() && #[trigger] v[d] == '.' && all_digits(
                                            v.take(d),
                                        ) && all_digits(v.skip(d + 1));
                                    if d < m {
                                        assert(v.skip(d + 1)[m - d - 1] == v[m]);
                                    } else {
                                        assert(v.take(d)[m] == v[m]);
                                    }
                                }
                            }
                        }
                    }
                }
            }
            return r;
        }
        i = i + 1;
    }
    let r = mantissa_in(s, a, b);
    r
}

/// Whether `s[a..b]` equals the lower-case ASCII word `w` when case is ignored.
fn word_in(s: &str, a: usize, b: usize, w: &str) -> (r: bool)
    requires
        a <= b <= s@.len(),
    ensures
        r == equals_ignoring_case(s@.subrange(a as int, b as int), w@),
{
    let ghost t = s@.subrange(a as int, b as int);
    let n = w.unicode_len();
    if b - a != n {
        return false;
    }
    let mut i: usize = 0;
    while i < n
        invariant
            n == w@.len() == b - a,
            a <= b <= s@.len(),
            t == s@.subrange(a as int, b as int),
            0 <= i <= n,
            forall|k: int| 0 <= k < i ==> same_letter(#[trigger] t[k], w@[k]),
        decreases n - i,
    {
        let c = s.get_char(a + i);
        let x = w.get_char(i);
        assert(t[i as int] == c);
        if !(c == x || ('A' <= c && c <= 'Z' && (c as u32) + 32 == (x as u32))) {
            return false;
        }
        i = i + 1;
    }
    true
}

/// Whether `s` is text that Rust's parser of floating-point numbers accepts.
pub fn is_float_text(s: &str) -> (r: bool)
    ensures
        r == is_float_literal(s@),
{
    let n = s.unicode_len();
    let mut a: usize = 0;
    if n > 0 {
        let c = s.get_char(0);
        if c == '+' || c == '-' {
            a = 1;
        }
    }
    assert(unsigned_part(s@) =~= s@.subrange(a as int, n as int));
    proof {
        reveal_strlit("inf");
        reveal_strlit("infinity");
        reveal_strlit("nan");
    }
    assert("inf"@ =~= word_inf());
    assert("infinity"@ =~= word_infinity());
    assert("nan"@ =~= word_nan());
    word_in(s, a, n, "inf") || word_in(s, a, n, "infinity") || word_in(s, a, n, "nan")
        || number_body_in(s, a, n)
}


/// Whether `s` is exactly `w`.
pub fn text_is(s: &str, w: &str) -> (r: bool)
    ensures
        r == (s@ == w@),
{
    let n = s.unicode_len();
    if n != w.unicode_len() {
        return false;
    }
    let mut i: usize = 0;
    while i < n
        invariant
            n == s@.len() == w@.len(),
            0 <= i <= n,
            forall|k: int| 0 <= k < i ==> #[trigger] s@[k] == w@[k],
        decreases n - i,
    {
        if s.get_char(i) != w.get_char(i) {
            return false;
        }
        i = i + 1;
    }
    assert(s@ =~= w@);
    true
}

pub open spec fn word_string() -> Seq<char> {
    seq!['s', 't', 'r', 'i', 'n', 'g']
}

pub open spec fn word_bool() -> Seq<char> {
    seq!['b', 'o', 'o', 'l']
}

pub open spec fn word_number() -> Seq<char> {
    seq!['n', 'u', 'm', 'b', 'e', 'r']
}

impl SchemaType {
    /// The keyword that names this type in a schema.
    pub open spec fn spec_keyword(self) -> Seq<char> {
        match self {
            SchemaType::String => word_string(),
            SchemaType::Boolean => word_bool(),
            SchemaType::Number => word_number(),
        }
    }

    /// Infers the type of a raw value: `true` and `false` are booleans, text that
    /// parses as a floating-point number is a number, anything else is a string.
    pub fn from_str(value: &str) -> (r: SchemaType)
        ensures
            r == spec_infer(value@),
    {
        proof {
            reveal_strlit("true");
            reveal_strlit("false");
        }
        assert("true"@ =~= word_true());
        assert("false"@ =~= word_false());
        if text_is(value, "true") || text_is(value, "false") {
            return SchemaType::Boolean;
        }
        if is_float_text(value) {
            return SchemaType::Number;
        }
        SchemaType::String
    }

    /// The keyword that names this type in a schema: `string`, `bool` or `number`.
    pub fn keyword(&self) -> (r: String)
        ensures
            r@ == self.spec_keyword(),
    {
        proof {
            reveal_strlit("string");
            reveal_strlit("bool");
            reveal_strlit("number");
        }
        let w = match self {
            SchemaType::String => "string",
            SchemaType::Boolean => "bool",
            SchemaType::Number => "number",
        };
        let r = w.to_owned();
        assert(r@ =~= self.spec_keyword());
        r
    }
}

/// Inference gives every text exactly one of the three types, and `true` and
/// `false` are booleans.
pub proof fn lemma_infer_total(s: Seq<char>)
    ensures
        spec_infer(s) == SchemaType::Boolean || spec_infer(s) == SchemaType::Number
            || spec_infer(s) == SchemaType::String,
        spec_infer(word_true()) == SchemaType::Boolean,
        spec_infer(word_false()) == SchemaType::Boolean,
{
}


/// One parsed configuration value.
#[derive(Debug, PartialEq)]
pub struct SysctlValue {
    /// The text after `=`, trimmed of white space.
    pub value: String,
    /// Whether the key was written with a leading `-`: failures in applying it are to be tolerated.
    pub ignore_error: bool,
}

impl View for SysctlValue {
    type V = (Seq<char>, bool);

    open spec fn view(&self) -> (Seq<char>, bool) {
        (self.value@, self.ignore_error)
    }
}

/// One line of a schema: a key and the type declared for it.
#[derive(Debug, PartialEq)]
pub struct SchemaEntry {
    pub name: String,
    pub schema_type: SchemaType,
}

impl View for SchemaEntry {
    type V = (Seq<char>, SchemaType);

    open spec fn view(&self) -> (Seq<char>, SchemaType) {
        (self.name@, self.schema_type)
    }
}

/// A parsed schema: its entries in the order written.
#[derive(Debug, PartialEq)]
pub struct Schema {
    pub entries: Vec<SchemaEntry>,
}

impl View for Schema {
    type V = Seq<(Seq<char>, SchemaType)>;

    open spec fn view(&self) -> Seq<(Seq<char>, SchemaType)> {
        self.entries@.map_values(|e: SchemaEntry| e@)
    }
}

/// One violation found by validation.
#[derive(Debug, Clone, PartialEq)]
pub enum ValidationError {
    /// The schema declares the key; the configuration lacks it.
    MissingKey(String),
    /// The configuration has the key; the schema does not declare it.
    UnknownKey(String),
    /// The key is declared `bool` or `number` and its value is inferred as another type.
    WrongType { key_name: String, expect: SchemaType, actual: SchemaType },
    /// The key is declared `string` and a line of its value is too long.
    TooLongLine(String),
}

/// What a `ValidationError` says, over sequences of characters.
pub enum ErrorView {
    MissingKey(Seq<char>),
    UnknownKey(Seq<char>),
    WrongType { key_name: Seq<char>, expect: SchemaType, actual: SchemaType },
    TooLongLine(Seq<char>),
}

impl View for ValidationError {
    type V = ErrorView;

    open spec fn view(&self) -> ErrorView {
        match self {
            ValidationError::MissingKey(k) => ErrorView::MissingKey(k@),
            ValidationError::UnknownKey(k) => ErrorView::UnknownKey(k@),
            ValidationError::WrongType { key_name, expect, actual } => ErrorView::WrongType {
                key_name: key_name@,
                expect: *expect,
                actual: *actual,
            },
            ValidationError::TooLongLine(k) => ErrorView::TooLongLine(k@),
        }
    }
}

} // verus!
