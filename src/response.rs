use vstd::prelude::*;
use crate::prompt::{chars_of, skip_repeated, strip_repeated, trim_end, trim_start};
use crate::tokens::{is_space, is_space_spec};

verus! {

/// Whether `text` is a JSON object, as serde_json reads it into a map of
/// strings to values.
pub uninterp spec fn parses_as_object(text: Seq<char>) -> bool;

/// Relies on `serde_json::from_str` into `serde_json::Map<String, Value>`:
/// whether it succeeds depends on the text alone.
#[verifier::external_body]
fn json_object_ok(text: &str) -> (r: bool)
    ensures
        r == parses_as_object(text@),
{
    serde_json::from_str::<serde_json::Map<String, serde_json::Value>>(text).is_ok()
}

pub const FENCE_JSON: &'static str = "```json";

pub const FENCE: &'static str = "```";

/// `s` with every trailing repetition of the non-empty pattern `p` removed.
pub open spec fn strip_repeated_end(s: Seq<char>, p: Seq<char>) -> Seq<char>
    decreases s.len(),
{
    if p.len() > 0 && p.len() <= s.len() && s.skip(s.len() - p.len()) == p {
        strip_repeated_end(s.take(s.len() - p.len()), p)
    } else {
        s
    }
}

/// A model reply without surrounding whitespace and without the code fences
/// around it.
pub open spec fn unfenced(s: Seq<char>) -> Seq<char> {
    let t = trim_end(trim_start(s));
    let u = strip_repeated(strip_repeated(t, FENCE_JSON@), FENCE@);
    trim_end(trim_start(strip_repeated_end(u, FENCE@)))
}

/// The position of the first `c` in `s`, if any.
pub open spec fn first_of(s: Seq<char>, c: char) -> Option<int>
    decreases s.len(),
{
    if s.len() == 0 {
        None
    } else if s[0] == c {
        Some(0)
    } else {
        match first_of(s.drop_first(), c) {
            Some(i) => Some(i + 1),
            None => None,
        }
    }
}

/// The position of the last `c` in `s`, if any.
pub open spec fn last_of(s: Seq<char>, c: char) -> Option<int>
    decreases s.len(),
{
    if s.len() == 0 {
        None
    } else if s.last() == c {
        Some(s.len() - 1)
    } else {
        last_of(s.drop_last(), c)
    }
}

/// The JSON object text in a model reply: the unfenced reply when it parses
/// as an object; otherwise the span from its first `{` to its last `}` when
/// that parses; otherwise none.
pub open spec fn reply_json(s: Seq<char>) -> Option<Seq<char>> {
    let c = unfenced(s);
    if parses_as_object(c) {
        Some(c)
    } else {
        match (first_of(c, '{'), last_of(c, '}')) {
            (Some(i), Some(j)) => if i <= j && parses_as_object(c.subrange(i, j + 1)) {
                Some(c.subrange(i, j + 1))
            } else {
                None
            },
            _ => None,
        }
    }
}

/// The end of `v[a..b]` once every trailing repetition of `pat` is removed.
fn skip_repeated_end(v: &Vec<char>, a: usize, b: usize, pat: &str) -> (r: usize)
    requires
        a <= b <= v@.len(),
    ensures
        a <= r <= b,
        v@.subrange(a as int, r as int) == strip_repeated_end(v@.subrange(a as int, b as int), pat@),
{
    let p = chars_of(pat);
    if p.len() == 0 {
        return b;
    }
    let mut e = b;
    loop
        invariant
            a <= e <= b <= v@.len(),
            p@ == pat@,
            p@.len() > 0,
            strip_repeated_end(v@.subrange(a as int, e as int), pat@) == strip_repeated_end(
                v@.subrange(a as int, b as int),
                pat@,
            ),
        decreases e - a,
    {
        if p.len() > e - a {
            return e;
        }
        let start = e - p.len();
        let mut k: usize = 0;
        let mut same = true;
        while k < p.len()
            invariant
                start + p@.len() == e <= v@.len(),
                k <= p@.len(),
                same == forall|j: int| 0 <= j < k ==> v@[start + j] == p@[j],
            decreases p@.len() - k,
        {
            if v[start + k] != p[k] {
                same = false;
            }
            k = k + 1;
        }
        let ghost w = v@.subrange(a as int, e as int);
        if !same {
            proof {
                let j = choose|j: int| 0 <= j < p@.len() && v@[start + j] != p@[j];
                assert(w.skip(w.len() - p@.len())[j] == v@[start + j]);
            }
            return e;
        }
        proof {
            assert(w.skip(w.len() - p@.len()) =~= p@);
            assert(w.take(w.len() - p@.len()) =~= v@.subrange(a as int, start as int));
        }
        e = start;
    }
}

/// Trims whitespace from both ends of `v[a..b]`.
fn trim_range(v: &Vec<char>, a: usize, b: usize) -> (r: (usize, usize))
    requires
        a <= b <= v@.len(),
    ensures
        a <= r.0 <= r.1 <= b,
        v@.subrange(r.0 as int, r.1 as int) == trim_end(trim_start(v@.subrange(a as int, b as int))),
{
    let mut s = a;
    while s < b && is_space(v[s])
        invariant
            a <= s <= b <= v@.len(),
            trim_start(v@.subrange(s as int, b as int)) == trim_start(v@.subrange(a as int, b as int)),
        decreases b - s,
    {
        assert(v@.subrange(s as int, b as int).skip(1) =~= v@.subrange(s + 1, b as int));
        s = s + 1;
    }
    assert(trim_start(v@.subrange(s as int, b as int)) == v@.subrange(s as int, b as int));
    let mut e = b;
    while e > s && is_space(v[e - 1])
        invariant
            s <= e <= b <= v@.len(),
            trim_end(v@.subrange(s as int, e as int)) == trim_end(v@.subrange(s as int, b as int)),
        decreases e - s,
    {
        assert(v@.subrange(s as int, e as int).drop_last() =~= v@.subrange(s as int, e - 1));
        e = e - 1;
    }
    assert(trim_end(v@.subrange(s as int, e as int)) == v@.subrange(s as int, e as int));
    (s, e)
}

/// Finds the JSON object text in a model reply, which may wrap it in code
/// fences or in other words.
pub fn response_json(reply: &str) -> (r: Option<&str>)
    ensures
        match r {
            Some(t) => reply_json(reply@) == Some(t@),
            None => reply_json(reply@) is None,
        },
{
    let v = chars_of(reply);
    let n = v.len();
    assert(v@.subrange(0, n as int) =~= reply@);
    let (a1, b1) = trim_range(&v, 0, n);
    let a2 = skip_repeated(&v, a1, b1, FENCE_JSON);
    let a3 = skip_repeated(&v, a2, b1, FENCE);
    let b3 = skip_repeated_end(&v, a3, b1, FENCE);
    let (a, b) = trim_range(&v, a3, b3);
    let ghost c = v@.subrange(a as int, b as int);
    assert(c == unfenced(reply@));
    let cleaned = reply.substring_char(a, b);
    if json_object_ok(cleaned) {
        return Some(cleaned);
    }
    let mut i = a;
    while i < b && v[i] != '{'
        invariant
            a <= i <= b <= v@.len(),
            c == v@.subrange(a as int, b as int),
            first_of(c, '{') == match first_of(v@.subrange(i as int, b as int), '{') {
                Some(x) => Some(x + (i - a)),
                None => None,
            },
        decreases b - i,
    {
        assert(v@.subrange(i as int, b as int).drop_first() =~= v@.subrange(i + 1, b as int));
        i = i + 1;
    }
    if i == b {
        assert(v@.subrange(i as int, b as int).len() == 0);
        return None;
    }
    let mut j = b;
    while j > a && v[j - 1] != '}'
        invariant
            a <= j <= b <= v@.len(),
            c == v@.subrange(a as int, b as int),
            last_of(c, '}') == last_of(v@.subrange(a as int, j as int), '}'),
        decreases j - a,
    {
        assert(v@.subrange(a as int, j as int).drop_last() =~= v@.subrange(a as int, j - 1));
        j = j - 1;
    }
    if j == a {
        assert(v@.subrange(a as int, j as int).len() == 0);
        return None;
    }
    if i >= j {
        return None;
    }
    let span = reply.substring_char(i, j);
    assert(span@ =~= c.subrange(i - a, j - a));
    if json_object_ok(span) {
        Some(span)
    } else {
        None
    }
}

} // verus!
