use crate::text::{find, find_char, text_of, to_chars};
use vstd::prelude::*;
use vstd::string::StringExecFns;

verus! {

/// What a request asks of the store, as its address says.
pub enum Call {
    /// The value under `key`.
    Fetch { key: Seq<char> },
    /// To put `value` under `key`.
    Put { key: Seq<char>, value: Seq<char> },
    /// To put something, without saying what: the query holds no `=`.
    BadSet,
    /// Nothing that the store offers.
    Unknown,
}

/// A request to the store, read from its address.
#[derive(Clone, Debug, PartialEq, Eq)]
pub enum Request {
    /// Asks for the value under `key`.
    Fetch { key: String },
    /// Asks to put `value` under `key`.
    Put { key: String, value: String },
    /// Asks to put something, without a `=` between key and value.
    Invalid,
    /// Asks for nothing that the store offers.
    NotFound,
}

impl Request {
    /// What this request asks.
    pub open spec fn call(&self) -> Call {
        match self {
            Request::Fetch { key } => Call::Fetch { key: key@ },
            Request::Put { key, value } => Call::Put { key: key@, value: value@ },
            Request::Invalid => Call::BadSet,
            Request::NotFound => Call::Unknown,
        }
    }
}

/// The address of a request that puts a value.
pub open spec fn set_prefix() -> Seq<char> {
    seq!['/', 's', 'e', 't', '?']
}

/// The address of a request that asks for a value.
pub open spec fn get_prefix() -> Seq<char> {
    seq!['/', 'g', 'e', 't', '?']
}

/// `s` without every leading repetition of `prefix`.
pub open spec fn strip_all(s: Seq<char>, prefix: Seq<char>) -> Seq<char>
    decreases s.len(),
{
    if prefix.len() > 0 && prefix.is_prefix_of(s) {
        strip_all(s.skip(prefix.len() as int), prefix)
    } else {
        s
    }
}

/// White space, as Unicode's property `White_Space` has it.
pub open spec fn is_space(c: char) -> bool {
    ||| c == '\u{0009}'
    ||| c == '\u{000A}'
    ||| c == '\u{000B}'
    ||| c == '\u{000C}'
    ||| c == '\u{000D}'
    ||| c == '\u{0020}'
    ||| c == '\u{0085}'
    ||| c == '\u{00A0}'
    ||| c == '\u{1680}'
    ||| c == '\u{2000}'
    ||| c == '\u{2001}'
    ||| c == '\u{2002}'
    ||| c == '\u{2003}'
    ||| c == '\u{2004}'
    ||| c == '\u{2005}'
    ||| c == '\u{2006}'
    ||| c == '\u{2007}'
    ||| c == '\u{2008}'
    ||| c == '\u{2009}'
    ||| c == '\u{200A}'
    ||| c == '\u{2028}'
    ||| c == '\u{2029}'
    ||| c == '\u{202F}'
    ||| c == '\u{205F}'
    ||| c == '\u{3000}'
}

/// `s` without its leading white space.
pub open spec fn trim_start(s: Seq<char>) -> Seq<char>
    decreases s.len(),
{
    if s.len() > 0 && is_space(s[0]) {
        trim_start(s.drop_first())
    } else {
        s
    }
}

/// `s` without its trailing white space.
pub open spec fn trim_end(s: Seq<char>) -> Seq<char>
    decreases s.len(),
{
    if s.len() > 0 && is_space(s.last()) {
        trim_end(s.drop_last())
    } else {
        s
    }
}

/// `s` without the white space at either end.
pub open spec fn trim(s: Seq<char>) -> Seq<char> {
    trim_end(trim_start(s))
}

/// What the address `url` asks. A put is looked for first; its key ends at
/// the first `=`, and neither key nor value is trimmed. The key of a get is
/// trimmed.
pub open spec fn route(url: Seq<char>) -> Call {
    if set_prefix().is_prefix_of(url) {
        let query = strip_all(url, set_prefix());
        let eq = find(query, '=', 0);
        if eq == query.len() {
            Call::BadSet
        } else {
            Call::Put { key: query.take(eq), value: query.skip(eq + 1) }
        }
    } else if get_prefix().is_prefix_of(url) {
        Call::Fetch { key: trim(strip_all(url, get_prefix())) }
    } else {
        Call::Unknown
    }
}

/// Whether `c` is white space.
pub fn space(c: char) -> (r: bool)
    ensures
        r == is_space(c),
{
    c == '\u{0009}' || c == '\u{000A}' || c == '\u{000B}' || c == '\u{000C}' || c == '\u{000D}'
        || c == '\u{0020}' || c == '\u{0085}' || c == '\u{00A0}' || c == '\u{1680}' || c
        == '\u{2000}' || c == '\u{2001}' || c == '\u{2002}' || c == '\u{2003}' || c == '\u{2004}'
        || c == '\u{2005}' || c == '\u{2006}' || c == '\u{2007}' || c == '\u{2008}' || c
        == '\u{2009}' || c == '\u{200A}' || c == '\u{2028}' || c == '\u{2029}' || c == '\u{202F}'
        || c == '\u{205F}' || c == '\u{3000}'
}

/// Whether the five characters of `prefix` stand in `chars` at `at`.
fn starts_at(chars: &Vec<char>, at: usize, prefix: &[char; 5]) -> (r: bool)
    requires
        at <= chars.len(),
    ensures
        r == prefix@.is_prefix_of(chars@.skip(at as int)),
{
    let ghost rest = chars@.skip(at as int);
    if chars.len() - at < 5 {
        return false;
    }
    let r = chars[at] == prefix[0] && chars[at + 1] == prefix[1] && chars[at + 2] == prefix[2]
        && chars[at + 3] == prefix[3] && chars[at + 4] == prefix[4];
    proof {
        assert(rest[0] == chars@[at as int]);
        assert(rest[1] == chars@[at + 1]);
        assert(rest[2] == chars@[at + 2]);
        assert(rest[3] == chars@[at + 3]);
        assert(rest[4] == chars@[at + 4]);
        if r {
            assert(rest.subrange(0, 5) =~= prefix@);
        } else if prefix@.is_prefix_of(rest) {
            assert(rest.subrange(0, 5) == prefix@);
            assert(rest.subrange(0, 5)[0] == rest[0]);
            assert(rest.subrange(0, 5)[1] == rest[1]);
            assert(rest.subrange(0, 5)[2] == rest[2]);
            assert(rest.subrange(0, 5)[3] == rest[3]);
            assert(rest.subrange(0, 5)[4] == rest[4]);
        }
    }
    r
}

/// The place in `chars` behind every leading repetition of `prefix`.
fn skip_all(chars: &Vec<char>, prefix: &[char; 5]) -> (at: usize)
    ensures
        at <= chars.len(),
        chars@.skip(at as int) == strip_all(chars@, prefix@),
{
    let mut at: usize = 0;
    assert(chars@.skip(0) =~= chars@);
    while starts_at(chars, at, prefix)
        invariant
            at <= chars.len(),
            strip_all(chars@, prefix@) == strip_all(chars@.skip(at as int), prefix@),
        decreases chars.len() - at,
    {
        assert(chars@.skip(at as int).skip(5) =~= chars@.skip(at + 5));
        at += 5;
    }
    at
}

/// The trimmed part of `chars` from `start` on.
fn trim_range(chars: &Vec<char>, start: usize) -> (range: (usize, usize))
    requires
        start <= chars.len(),
    ensures
        start <= range.0 <= range.1 <= chars.len(),
        chars@.subrange(range.0 as int, range.1 as int) == trim(chars@.skip(start as int)),
{
    let n = chars.len();
    let mut from: usize = start;
    while from < n && space(chars[from])
        invariant
            n == chars.len(),
            start <= from <= n,
            trim_start(chars@.skip(start as int)) == trim_start(chars@.skip(from as int)),
        decreases n - from,
    {
        assert(chars@.skip(from as int).drop_first() =~= chars@.skip(from + 1));
        from += 1;
    }
    let ghost body = chars@.skip(from as int);
    assert(trim_start(body) == body);
    let mut to: usize = n;
    assert(chars@.subrange(from as int, n as int) =~= body);
    while to > from && space(chars[to - 1])
        invariant
            n == chars.len(),
            from <= to <= n,
            trim_end(body) == trim_end(chars@.subrange(from as int, to as int)),
        decreases to - from,
    {
        assert(chars@.subrange(from as int, to as int).drop_last() =~= chars@.subrange(
            from as int,
            to - 1,
        ));
        to -= 1;
    }
    (from, to)
}

/// Reads what the address `url` asks of the store.
pub fn parse_request(url: &str) -> (request: Request)
    ensures
        request.call() == route(url@),
{
    let chars = to_chars(url);
    let n = chars.len();
    assert(chars@.skip(0) =~= chars@);
    if starts_at(&chars, 0, &['/', 's', 'e', 't', '?']) {
        let at = skip_all(&chars, &['/', 's', 'e', 't', '?']);
        let ghost query = chars@.skip(at as int);
        assert(chars@.subrange(at as int, n as int) =~= query);
        let eq = find_char(&chars, '=', at, n);
        if eq == n {
            Request::Invalid
        } else {
            let key = text_of(&chars, at, eq);
            let value = text_of(&chars, eq + 1, n);
            proof {
                assert(query.take(eq - at) =~= chars@.subrange(at as int, eq as int));
                assert(query.skip(eq - at + 1) =~= chars@.subrange(eq + 1, n as int));
            }
            Request::Put { key, value }
        }
    } else if starts_at(&chars, 0, &['/', 'g', 'e', 't', '?']) {
        let at = skip_all(&chars, &['/', 'g', 'e', 't', '?']);
        let (from, to) = trim_range(&chars, at);
        Request::Fetch { key: text_of(&chars, from, to) }
    } else {
        Request::NotFound
    }
}

/// How a request ended.
#[derive(Clone, Debug, PartialEq, Eq)]
pub enum Outcome {
    /// The key of a get was found, with this value.
    Found(String),
    /// The key of a get was not found.
    Missing,
    /// The value of a put was stored.
    Stored,
    /// The request was a put without a `=`.
    Invalid,
    /// The request asked for nothing that the store offers.
    Unknown,
    /// The record of a put could not be appended to the log.
    Failed,
}

/// The status and the body of the answer to a request that ended as
/// `outcome` says.
pub fn reply(outcome: Outcome) -> (answer: (u16, String))
    ensures
        match outcome {
            Outcome::Found(value) => answer.0 == 200 && answer.1@ == value@,
            Outcome::Missing => answer.0 == 404 && answer.1@ == "Key not found"@,
            Outcome::Stored => answer.0 == 200 && answer.1@ == "OK"@,
            Outcome::Invalid => answer.0 == 400 && answer.1@ == "Invalid input"@,
            Outcome::Unknown => answer.0 == 404 && answer.1@ == "Not Found"@,
            Outcome::Failed => answer.0 == 500 && answer.1@ == "Insert failed"@,
        },
{
    match outcome {
        Outcome::Found(value) => (200, value),
        Outcome::Missing => (404, String::from_str("Key not found")),
        Outcome::Stored => (200, String::from_str("OK")),
        Outcome::Invalid => (400, String::from_str("Invalid input")),
        Outcome::Unknown => (404, String::from_str("Not Found")),
        Outcome::Failed => (500, String::from_str("Insert failed")),
    }
}

} // verus!
