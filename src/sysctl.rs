//! The grammar of configuration text: `[-]key = value` units between skips.
use vstd::prelude::*;
use crate::config::SysctlMap;
use crate::lex::{
    is_comment_start, is_white, line_stop, line_stop_from, name_end, name_end_from, rest_from, skip_end, skip_from,
    trim_end, trim_range, trim_start, trimmed, SyntaxError,
};
use crate::types::SysctlValue;

verus! {

/// A parsed `key = value` line: its end, its key, and its value with the
/// ignore-error flag.
pub type KeyValueView = (int, Seq<char>, (Seq<char>, bool));

/// Where a key that starts at `p` (after skipping) ends: it runs up to white
/// space or `=`.
pub open spec fn key_span(s: Seq<char>, p: int) -> (int, int) {
    let k0 = skip_end(s, p);
    (k0, name_end(s, k0, '='))
}

/// The value after `=` at `e`: the rest of that line, which may be empty.
pub open spec fn value_span(s: Seq<char>, e: int) -> (int, int) {
    (e + 1, line_stop(s, e + 1))
}

/// `["-"] key "=" value` read from `p`, each part after skipping.
pub open spec fn key_value_at(s: Seq<char>, p: int) -> Option<KeyValueView> {
    let h = skip_end(s, p);
    let ignore = 0 <= h < s.len() && s[h] == '-';
    let (k0, k1) = key_span(s, if ignore { h + 1 } else { p });
    let e = skip_end(s, k1);
    if k0 < k1 && 0 <= e < s.len() && s[e] == '=' {
        let (v0, v1) = value_span(s, e);
        Some((v1, s.subrange(k0, k1), (trimmed(s, v0, v1), ignore)))
    } else {
        None
    }
}

/// The `key = value` units read from `p` on, each between skips, and where
/// reading stopped.
pub open spec fn sysctl_items(s: Seq<char>, p: int) -> (Seq<(Seq<char>, (Seq<char>, bool))>, int)
    decreases s.len() - p,
{
    if p < 0 || p > s.len() {
        (seq![], p)
    } else {
        match key_value_at(s, skip_end(s, p)) {
            Some((q, k, v)) => {
                let b = skip_end(s, q);
                if p < b <= s.len() {
                    let (rest, stop) = sysctl_items(s, b);
                    (seq![(k, v)] + rest, stop)
                } else {
                    (seq![], p)
                }
            },
            None => (seq![], p),
        }
    }
}

/// The map that the units give, a later unit replacing an earlier one of the same key.
pub open spec fn items_map(items: Seq<(Seq<char>, (Seq<char>, bool))>) -> Map<
    Seq<char>,
    (Seq<char>, bool),
>
    decreases items.len(),
{
    if items.len() == 0 {
        Map::empty()
    } else {
        items_map(items.drop_last()).insert(items.last().0, items.last().1)
    }
}

/// Reads `["-"] key "=" value` at position `p`.
fn key_value_from(s: &str, p: usize) -> (r: Option<(usize, String, SysctlValue)>)
    requires
        p <= s@.len(),
    ensures
        match r {
            Some((q, k, v)) => key_value_at(s@, p as int) == Some((q as int, k@, v@)) && p < q
                <= s@.len(),
            None => key_value_at(s@, p as int) is None,
        },
{
    let n = s.unicode_len();
    let h = skip_from(s, p);
    let ignore = h < n && s.get_char(h) == '-';
    let k0 = skip_from(s, if ignore { h + 1 } else { p });
    let k1 = name_end_from(s, k0, '=');
    let e = skip_from(s, k1);
    if k0 < k1 && e < n && s.get_char(e) == '=' {
        let v0 = e + 1;
        let v1 = line_stop_from(s, v0);
        let (t0, t1) = trim_range(s, v0, v1);
        let key = s.substring_char(k0, k1).to_owned();
        let value = s.substring_char(t0, t1).to_owned();
        Some((v1, key, SysctlValue { value, ignore_error: ignore }))
    } else {
        None
    }
}

/// Parses a whole configuration text: `key = value` units, each between skips of
/// white space and comments, then white space and comments up to the end of the
/// text. A value ends with its line and may be empty. A leading `-` on a key sets
/// its ignore-error flag; a later unit of a key replaces an earlier one. Fails,
/// with the text from where reading stopped, if unreadable text remains.
pub fn parse_sysctl(input: &str) -> (r: Result<SysctlMap, SyntaxError>)
    ensures
        match r {
            Ok(m) => skip_end(input@, sysctl_items(input@, 0).1) == input@.len() && m.wf() && m@
                == items_map(sysctl_items(input@, 0).0),
            Err(e) => skip_end(input@, sysctl_items(input@, 0).1) != input@.len() && e.rest@
                == input@.skip(skip_end(input@, sysctl_items(input@, 0).1)),
        },
{
    let n = input.unicode_len();
    let ghost s = input@;
    let mut m = SysctlMap::new();
    let ghost mut done: Seq<(Seq<char>, (Seq<char>, bool))> = seq![];
    let mut p: usize = 0;
    loop
        invariant
            n == s.len(),
            s == input@,
            p <= n,
            m.wf(),
            m@ == items_map(done),
            sysctl_items(s, 0).0 == done + sysctl_items(s, p as int).0,
            sysctl_items(s, 0).1 == sysctl_items(s, p as int).1,
        ensures
            p <= n,
            m.wf(),
            m@ == items_map(done),
            sysctl_items(s, 0).0 == done,
            sysctl_items(s, 0).1 == p,
        decreases n - p,
    {
        let a = skip_from(input, p);
        match key_value_from(input, a) {
            Some((q, k, v)) => {
                let b = skip_from(input, q);
                if b <= p {
                    assert(done + seq![] =~= done);
                    break;
                }
                let ghost item = (k@, v@);
                let ghost rest = sysctl_items(s, b as int).0;
                assert(sysctl_items(s, p as int).0 == seq![item] + rest);
                assert(done + (seq![item] + rest) =~= done.push(item) + rest);
                m.insert(k, v);
                proof {
                    let d2 = done.push(item);
                    assert(d2.drop_last() =~= done);
                    done = d2;
                }
                p = b;
            },
            None => {
                assert(done + seq![] =~= done);
                break;
            },
        }
    }
    let end = skip_from(input, p);
    if end == n {
        Ok(m)
    } else {
        Err(SyntaxError { rest: rest_from(input, end).to_owned() })
    }
}


/// Reads a key after skipping: the characters up to white space or `=`, at least
/// one. Returns the rest of the input and the key.
pub fn parse_key(input: &str) -> (r: Option<(&str, &str)>)
    ensures
        ({
            let (k0, k1) = key_span(input@, 0);
            match r {
                Some((rest, key)) => k0 < k1 && key@ == input@.subrange(k0, k1) && rest@
                    == input@.skip(k1),
                None => k0 == k1,
            }
        }),
{
    let k0 = skip_from(input, 0);
    let k1 = name_end_from(input, k0, '=');
    if k0 < k1 {
        Some((rest_from(input, k1), input.substring_char(k0, k1)))
    } else {
        None
    }
}

/// Reads a value: the rest of the line, trimmed of white space, possibly empty.
/// Returns the rest of the input, from the line ending on, and the value.
pub fn parse_value(input: &str) -> (r: (&str, &str))
    ensures
        ({
            let v1 = line_stop(input@, 0);
            r.0@ == input@.skip(v1) && r.1@ == trimmed(input@, 0, v1)
        }),
{
    let v1 = line_stop_from(input, 0);
    let (t0, t1) = trim_range(input, 0, v1);
    (rest_from(input, v1), input.substring_char(t0, t1))
}

/// Reads `["-"] key "=" value`. Returns the rest of the input, from the end of
/// the value's line on, and the key with its value.
pub fn parse_key_value(input: &str) -> (r: Option<(&str, (String, SysctlValue))>)
    ensures
        match r {
            Some((rest, (k, v))) => key_value_at(input@, 0) matches Some((q, kk, vv)) && k@ == kk
                && v@ == vv && rest@ == input@.skip(q),
            None => key_value_at(input@, 0) is None,
        },
{
    match key_value_from(input, 0) {
        Some((q, k, v)) => Some((rest_from(input, q), (k, v))),
        None => None,
    }
}


/// A key that reads back as itself: not empty, without white space or `=`, and
/// not starting with `#` or `;`.
pub open spec fn plain_key(k: Seq<char>) -> bool {
    k.len() > 0 && (forall|i: int| 0 <= i < k.len() ==> !is_white(#[trigger] k[i]) && k[i] != '=')
        && !is_comment_start(k[0])
}

/// A value that reads back as itself: on one line, without white space at
/// either end. It may be empty.
pub open spec fn plain_value(v: Seq<char>) -> bool {
    (forall|i: int| 0 <= i < v.len() ==> #[trigger] v[i] != '\r' && v[i] != '\n') && (v.len() > 0
        ==> !is_white(v[0]) && !is_white(v.last()))
}

/// An entry that reads back as itself: a plain key and value, where a key that
/// starts with `-` is written after the `-` of a set ignore-error flag.
pub open spec fn plain_entry(k: Seq<char>, v: (Seq<char>, bool)) -> bool {
    plain_key(k) && plain_value(v.0) && (k[0] == '-' ==> v.1)
}

/// One entry as a line of text: `key=value`, after a `-` if the ignore-error flag is set.
pub open spec fn render_line(k: Seq<char>, v: (Seq<char>, bool)) -> Seq<char> {
    (if v.1 {
        seq!['-']
    } else {
        seq![]
    }) + k + seq!['='] + v.0 + seq!['\n']
}

/// The entries as text, one line each, in order.
pub open spec fn render(items: Seq<(Seq<char>, (Seq<char>, bool))>) -> Seq<char>
    decreases items.len(),
{
    if items.len() == 0 {
        seq![]
    } else {
        render_line(items[0].0, items[0].1) + render(items.drop_first())
    }
}

proof fn lemma_name_run(s: Seq<char>, a: int, b: int, stop: char)
    requires
        0 <= a <= b < s.len(),
        s[b] == stop,
        forall|i: int| a <= i < b ==> !is_white(#[trigger] s[i]) && s[i] != stop,
    ensures
        name_end(s, a, stop) == b,
    decreases b - a,
{
    if a < b {
        lemma_name_run(s, a + 1, b, stop);
    }
}

proof fn lemma_line_run(s: Seq<char>, a: int, b: int)
    requires
        0 <= a <= b < s.len(),
        s[b] == '\n',
        forall|i: int| a <= i < b ==> #[trigger] s[i] != '\r' && s[i] != '\n',
    ensures
        line_stop(s, a) == b,
    decreases b - a,
{
    if a < b {
        lemma_line_run(s, a + 1, b);
    }
}

/// Reading `x + render(items)` from the end of `x` gives back `items`.
proof fn lemma_read_rendered(x: Seq<char>, items: Seq<(Seq<char>, (Seq<char>, bool))>)
    requires
        forall|i: int|
            0 <= i < items.len() ==> #[trigger] plain_entry(items[i].0, items[i].1),
    ensures
        sysctl_items(x + render(items), x.len() as int) == (items, (x + render(items)).len() as int),
    decreases items.len(),
{
    let s = x + render(items);
    let p = x.len() as int;
    if items.len() == 0 {
        assert(s =~= x);
        assert(skip_end(s, p) == p);
        let (k0, k1) = key_span(s, p);
        assert(k0 == p && k1 == p);
        assert(key_value_at(s, p) is None);
    } else {
        let (k, v) = items[0];
        assert(plain_entry(items[0].0, items[0].1));
        let line = render_line(k, v);
        let rest = items.drop_first();
        let x2 = x + line;
        assert(s =~= x2 + render(rest));
        let h: int = if v.1 { 1 } else { 0 };
        let k0 = p + h;
        let k1 = k0 + k.len();
        let v0 = k1 + 1;
        let v1 = v0 + v.0.len();
        assert(line.len() == h + k.len() + 1 + v.0.len() + 1);
        assert forall|i: int| 0 <= i < k.len() implies s[k0 + i] == k[i] by {
            assert(line[h + i] == k[i]);
        }
        assert(s[k1] == '=') by {
            assert(line[h + k.len()] == '=');
        }
        assert forall|i: int| 0 <= i < v.0.len() implies s[v0 + i] == v.0[i] by {
            assert(line[h + k.len() + 1 + i] == v.0[i]);
        }
        assert(s[v1] == '\n') by {
            assert(line[h + k.len() + 1 + v.0.len()] == '\n');
        }
        if v.1 {
            assert(s[p] == '-') by {
                assert(line[0] == '-');
            }
        }
        assert(s[k0] == k[0]);
        assert(skip_end(s, p) == p);
        assert(skip_end(s, k0) == k0);
        assert forall|i: int| k0 <= i < k1 implies !is_white(#[trigger] s[i]) && s[i] != '=' by {
            assert(s[k0 + (i - k0)] == k[i - k0]);
        }
        lemma_name_run(s, k0, k1, '=');
        assert(skip_end(s, k1) == k1);
        assert forall|i: int| v0 <= i < v1 implies #[trigger] s[i] != '\r' && s[i] != '\n' by {
            assert(s[v0 + (i - v0)] == v.0[i - v0]);
        }
        lemma_line_run(s, v0, v1);
        if v.0.len() > 0 {
            assert(s[v0] == v.0[0]);
            assert(s[v1 - 1] == v.0.last());
        }
        assert(trim_start(s, v0, v1) == v0);
        assert(trim_end(s, v0, v1) == v1);
        assert(s.subrange(k0, k1) =~= k);
        assert(s.subrange(v0, v1) =~= v.0);
        assert(key_value_at(s, p) == Some((v1, k, v)));
        let p2 = x2.len() as int;
        assert(p2 == v1 + 1);
        lemma_read_rendered(x2, rest);
        if rest.len() > 0 {
            assert(plain_entry(rest[0].0, rest[0].1));
            let l2 = render_line(rest[0].0, rest[0].1);
            assert(render(rest) == l2 + render(rest.drop_first()));
            if rest[0].1.1 {
                assert(s[p2] == '-') by {
                    assert(l2[0] == '-');
                    assert(s[p2] == render(rest)[0]);
                }
            } else {
                assert(s[p2] == rest[0].0[0]) by {
                    assert(l2[0] == rest[0].0[0]);
                    assert(s[p2] == render(rest)[0]);
                }
            }
        }
        assert(skip_end(s, p2) == p2);
        assert(skip_end(s, v1) == p2);
        assert(seq![(k, v)] + rest =~= items);
    }
}

/// Rendering entries whose keys and values read back as themselves, one
/// `key=value` line each with a `-` where the ignore-error flag is set, and
/// parsing the text succeeds and gives back those entries, so the same map.
pub proof fn lemma_round_trip(items: Seq<(Seq<char>, (Seq<char>, bool))>)
    requires
        forall|i: int|
            0 <= i < items.len() ==> #[trigger] plain_entry(items[i].0, items[i].1),
    ensures
        sysctl_items(render(items), 0).0 == items,
        sysctl_items(render(items), 0).1 == render(items).len(),
        skip_end(render(items), sysctl_items(render(items), 0).1) == render(items).len(),
        items_map(sysctl_items(render(items), 0).0) == items_map(items),
{
    lemma_read_rendered(seq![], items);
    assert(seq![] + render(items) =~= render(items));
}

} // verus!
