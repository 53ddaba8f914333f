//! The entry codec: one cache entry travels as a single self-delimited JSON
//! object `{"key":"...","value":"..."}`, encoded as UTF-8 bytes. Quotes and
//! backslashes inside key or value are escaped with a backslash; every other
//! character stands for itself. Encoding is deterministic, decoding rejects
//! anything that is not exactly an encoded entry, and the two are mutual
//! inverses ([`lemma_round_trip`]).

use vstd::prelude::*;
use vstd::string::StrSliceExecFns;
use vstd::string::StringSliceAdditionalSpecFns;
use vstd::utf8::decode_utf8;
use vstd::utf8::encode_utf8;
use vstd::utf8::valid_utf8;

verus! {

/// A single cache entry: an opaque string value under a string key.
pub struct CacheEntry {
    pub key: String,
    pub value: String,
}

/// The bytes handed to [`decode`] are not a well-formed encoded entry.
/// Non-fatal: the offending message is discarded and the session goes on.
#[derive(Clone, Copy, Debug, PartialEq, Eq)]
pub struct DecodeError;

/// Relies on `String::push`: it appends exactly the one given character.
#[verifier::external_body]
pub(crate) fn push_char(s: &mut String, c: char)
    ensures
        final(s)@ == old(s)@.push(c),
{
    s.push(c);
}

/// Relies on `core::str::from_utf8`: it returns `Ok` exactly on UTF-8 input,
/// and the returned slice borrows those same bytes.
#[verifier::external_body]
fn bytes_to_str(b: &[u8]) -> (r: Option<&str>)
    ensures
        r is Some <==> valid_utf8(b@),
        r matches Some(t) ==> t.spec_bytes() == b@,
{
    core::str::from_utf8(b).ok()
}

/// How one character appears inside an encoded string: quotes and backslashes
/// get a leading backslash, everything else stands for itself.
pub open spec fn esc_char(c: char) -> Seq<char> {
    if c == '"' || c == '\\' {
        seq!['\\', c]
    } else {
        seq![c]
    }
}

/// The escaped form of a whole string.
pub open spec fn escape(s: Seq<char>) -> Seq<char>
    decreases s.len(),
{
    if s.len() == 0 {
        Seq::empty()
    } else {
        esc_char(s[0]) + escape(s.skip(1))
    }
}

/// The opening of an encoded entry, up to and including the quote that starts
/// the key's characters.
pub open spec fn key_prefix() -> Seq<char> {
    seq!['{', '"', 'k', 'e', 'y', '"', ':', '"']
}

/// The text between the quote that ends the key and the quote that starts the
/// value's characters.
pub open spec fn value_sep() -> Seq<char> {
    seq![',', '"', 'v', 'a', 'l', 'u', 'e', '"', ':', '"']
}

pub open spec fn quote() -> Seq<char> {
    seq!['"']
}

pub open spec fn closing() -> Seq<char> {
    seq!['}']
}

/// The text form of an encoded entry.
pub open spec fn spec_encode_text(k: Seq<char>, v: Seq<char>) -> Seq<char> {
    key_prefix() + escape(k) + quote() + value_sep() + escape(v) + quote() + closing()
}

/// The wire form of an encoded entry: its text as UTF-8 bytes.
pub open spec fn spec_encode(k: Seq<char>, v: Seq<char>) -> Seq<u8> {
    encode_utf8(spec_encode_text(k, v))
}

/// Reads escaped characters up to an unescaped closing quote; yields the
/// unescaped content and the text after the quote, or nothing when the text
/// ends early or holds a stray backslash.
pub open spec fn parse_string(s: Seq<char>) -> Option<(Seq<char>, Seq<char>)>
    decreases s.len(),
{
    if s.len() == 0 {
        None
    } else if s[0] == '"' {
        Some((Seq::empty(), s.skip(1)))
    } else if s[0] == '\\' {
        if s.len() < 2 || !(s[1] == '"' || s[1] == '\\') {
            None
        } else {
            match parse_string(s.skip(2)) {
                Some(p) => Some((seq![s[1]] + p.0, p.1)),
                None => None,
            }
        }
    } else {
        match parse_string(s.skip(1)) {
            Some(p) => Some((seq![s[0]] + p.0, p.1)),
            None => None,
        }
    }
}

/// The key and value encoded in a text, or nothing when the text is not
/// exactly an encoded entry.
pub open spec fn spec_decode_text(s: Seq<char>) -> Option<(Seq<char>, Seq<char>)> {
    if s.len() < 8 || s.take(8) != key_prefix() {
        None
    } else {
        match parse_string(s.skip(8)) {
            None => None,
            Some(kp) => {
                let r1 = kp.1;
                if r1.len() < 10 || r1.take(10) != value_sep() {
                    None
                } else {
                    match parse_string(r1.skip(10)) {
                        None => None,
                        Some(vp) => {
                            if vp.1 == closing() {
                                Some((kp.0, vp.0))
                            } else {
                                None
                            }
                        },
                    }
                }
            },
        }
    }
}

/// The key and value encoded in wire bytes, or nothing when the bytes are not
/// UTF-8 or their text is not exactly an encoded entry.
pub open spec fn spec_decode(b: Seq<u8>) -> Option<(Seq<char>, Seq<char>)> {
    if valid_utf8(b) {
        spec_decode_text(decode_utf8(b))
    } else {
        None
    }
}

/// Escaping a concatenation escapes the pieces.
pub proof fn lemma_escape_concat(a: Seq<char>, b: Seq<char>)
    ensures
        escape(a + b) == escape(a) + escape(b),
    decreases a.len(),
{
    if a.len() == 0 {
        assert(a + b =~= b);
        assert(escape(a) + escape(b) =~= escape(b));
    } else {
        assert((a + b).len() != 0);
        assert((a + b)[0] == a[0]);
        assert((a + b).skip(1) =~= a.skip(1) + b);
        lemma_escape_concat(a.skip(1), b);
        assert(esc_char(a[0]) + (escape(a.skip(1)) + escape(b)) =~= (esc_char(a[0]) + escape(
            a.skip(1),
        )) + escape(b));
    }
}

/// The escaped form of one character is its [`esc_char`].
pub proof fn lemma_escape_singleton(c: char)
    ensures
        escape(seq![c]) == esc_char(c),
{
    assert(seq![c].skip(1) =~= Seq::<char>::empty());
    assert(esc_char(c) + escape(Seq::<char>::empty()) =~= esc_char(c));
}

/// Appends the escaped form of `s` to `t`.
pub(crate) fn push_escaped(t: &mut String, s: &str)
    ensures
        final(t)@ == old(t)@ + escape(s@),
{
    let n = s.unicode_len();
    let mut i: usize = 0;
    proof {
        assert(s@.take(0) =~= Seq::<char>::empty());
        assert(old(t)@ + escape(Seq::<char>::empty()) =~= old(t)@);
    }
    while i < n
        invariant
            i <= n,
            n == s@.len(),
            t@ == old(t)@ + escape(s@.take(i as int)),
        decreases n - i,
    {
        let ghost pre = t@;
        let c = s.get_char(i);
        if c == '"' || c == '\\' {
            push_char(t, '\\');
            push_char(t, c);
        } else {
            push_char(t, c);
        }
        proof {
            assert(t@ =~= pre + esc_char(c));
            assert(s@.take(i as int + 1) =~= s@.take(i as int) + seq![c]);
            lemma_escape_concat(s@.take(i as int), seq![c]);
            lemma_escape_singleton(c);
            assert(t@ =~= old(t)@ + escape(s@.take(i as int + 1)));
        }
        i = i + 1;
    }
    proof {
        assert(s@.take(n as int) =~= s@);
    }
}

/// Encodes one entry as wire bytes. Deterministic: the result is a function
/// of the entry's key and value alone.
pub fn encode(e: &CacheEntry) -> (r: Vec<u8>)
    ensures
        r@ == spec_encode(e.key@, e.value@),
{
    let mut t = String::new();
    push_char(&mut t, '{');
    push_char(&mut t, '"');
    push_char(&mut t, 'k');
    push_char(&mut t, 'e');
    push_char(&mut t, 'y');
    push_char(&mut t, '"');
    push_char(&mut t, ':');
    push_char(&mut t, '"');
    proof {
        assert(t@ =~= key_prefix());
    }
    push_escaped(&mut t, e.key.as_str());
    push_char(&mut t, '"');
    push_char(&mut t, ',');
    push_char(&mut t, '"');
    push_char(&mut t, 'v');
    push_char(&mut t, 'a');
    push_char(&mut t, 'l');
    push_char(&mut t, 'u');
    push_char(&mut t, 'e');
    push_char(&mut t, '"');
    push_char(&mut t, ':');
    push_char(&mut t, '"');
    push_escaped(&mut t, e.value.as_str());
    push_char(&mut t, '"');
    push_char(&mut t, '}');
    proof {
        assert(t@ =~= spec_encode_text(e.key@, e.value@));
    }
    t.as_str().as_bytes_vec()
}

/// Composes a parsed tail onto content already read.
spec fn glue(prefix: Seq<char>, r: Option<(Seq<char>, Seq<char>)>) -> Option<
    (Seq<char>, Seq<char>),
> {
    match r {
        Some(p) => Some((prefix + p.0, p.1)),
        None => None,
    }
}

/// Runs [`parse_string`] on the text from character `start` on; on success the
/// returned position is where the text after the closing quote begins.
fn parse_string_at(s: &str, start: usize) -> (r: Option<(String, usize)>)
    requires
        start <= s@.len(),
    ensures
        match r {
            Some(p) => start <= p.1 <= s@.len() && parse_string(s@.skip(start as int)) == Some(
                (p.0@, s@.skip(p.1 as int)),
            ),
            None => parse_string(s@.skip(start as int)) is None,
        },
{
    let n = s.unicode_len();
    let mut out = String::new();
    let mut i: usize = start;
    proof {
        let x = parse_string(s@.skip(start as int));
        match x {
            Some(p) => {
                assert(Seq::<char>::empty() + p.0 =~= p.0);
            },
            None => {},
        }
    }
    loop
        invariant
            start <= i <= n,
            n == s@.len(),
            glue(out@, parse_string(s@.skip(i as int))) == parse_string(s@.skip(start as int)),
        decreases n - i,
    {
        proof {
            assert(s@.skip(i as int).len() == n - i);
        }
        if i >= n {
            return None;
        }
        let c = s.get_char(i);
        proof {
            assert(s@.skip(i as int)[0] == s@[i as int]);
        }
        if c == '"' {
            proof {
                assert(s@.skip(i as int).skip(1) =~= s@.skip(i as int + 1));
                assert(out@ + Seq::<char>::empty() =~= out@);
            }
            return Some((out, i + 1));
        }
        if c == '\\' {
            if n - i < 2 {
                return None;
            }
            let c2 = s.get_char(i + 1);
            proof {
                assert(s@.skip(i as int)[1] == s@[i as int + 1]);
            }
            if c2 == '"' || c2 == '\\' {
                let ghost pre = out@;
                push_char(&mut out, c2);
                proof {
                    assert(s@.skip(i as int).skip(2) =~= s@.skip(i as int + 2));
                    let x = parse_string(s@.skip(i as int + 2));
                    match x {
                        Some(p) => {
                            assert(pre + (seq![c2] + p.0) =~= out@ + p.0);
                        },
                        None => {},
                    }
                }
                i = i + 2;
            } else {
                return None;
            }
        } else {
            let ghost pre = out@;
            push_char(&mut out, c);
            proof {
                assert(s@.skip(i as int).skip(1) =~= s@.skip(i as int + 1));
                let x = parse_string(s@.skip(i as int + 1));
                match x {
                    Some(p) => {
                        assert(pre + (seq![c] + p.0) =~= out@ + p.0);
                    },
                    None => {},
                }
            }
            i = i + 1;
        }
    }
}

/// Checks that the text opens like an encoded entry.
fn check_key_prefix(s: &str) -> (r: bool)
    requires
        s@.len() >= 8,
    ensures
        r == (s@.take(8) == key_prefix()),
{
    let r = s.get_char(0) == '{' && s.get_char(1) == '"' && s.get_char(2) == 'k' && s.get_char(3)
        == 'e' && s.get_char(4) == 'y' && s.get_char(5) == '"' && s.get_char(6) == ':'
        && s.get_char(7) == '"';
    proof {
        let t = s@.take(8);
        let p = key_prefix();
        assert(p[0] == '{' && p[1] == '"' && p[2] == 'k' && p[3] == 'e' && p[4] == 'y' && p[5]
            == '"' && p[6] == ':' && p[7] == '"');
        assert(forall|j: int| 0 <= j < 8 ==> t[j] == s@[j]);
        if r {
            assert(t =~= p);
        }
        if t == p {
            assert(s@[0] == '{' && s@[1] == '"' && s@[2] == 'k' && s@[3] == 'e' && s@[4] == 'y'
                && s@[5] == '"' && s@[6] == ':' && s@[7] == '"');
        }
    }
    r
}

/// Checks that the text from character `at` on opens like the value part of
/// an encoded entry.
fn check_value_sep(s: &str, at: usize) -> (r: bool)
    requires
        at + 10 <= s@.len() <= usize::MAX,
    ensures
        r == (s@.subrange(at as int, at as int + 10) == value_sep()),
{
    let r = s.get_char(at) == ',' && s.get_char(at + 1) == '"' && s.get_char(at + 2) == 'v'
        && s.get_char(at + 3) == 'a' && s.get_char(at + 4) == 'l' && s.get_char(at + 5) == 'u'
        && s.get_char(at + 6) == 'e' && s.get_char(at + 7) == '"' && s.get_char(at + 8) == ':'
        && s.get_char(at + 9) == '"';
    proof {
        let a = at as int;
        let t = s@.subrange(a, a + 10);
        let p = value_sep();
        assert(p[0] == ',' && p[1] == '"' && p[2] == 'v' && p[3] == 'a' && p[4] == 'l' && p[5]
            == 'u' && p[6] == 'e' && p[7] == '"' && p[8] == ':' && p[9] == '"');
        assert(forall|j: int| 0 <= j < 10 ==> t[j] == s@[a + j]);
        if r {
            assert(t =~= p);
        }
        if t == p {
            assert(s@[a] == ',' && s@[a + 1] == '"' && s@[a + 2] == 'v' && s@[a + 3] == 'a' && s@[a
                + 4] == 'l' && s@[a + 5] == 'u' && s@[a + 6] == 'e' && s@[a + 7] == '"' && s@[a + 8]
                == ':' && s@[a + 9] == '"');
        }
    }
    r
}

/// Decodes wire bytes back into an entry. Fails, rather than panicking, on
/// anything that is not exactly an encoded entry: bytes that are not UTF-8, a
/// missing or malformed frame, a stray backslash, trailing text.
pub fn decode(b: &[u8]) -> (r: Result<CacheEntry, DecodeError>)
    ensures
        match spec_decode(b@) {
            Some(kv) => r matches Ok(e) && e.key@ == kv.0 && e.value@ == kv.1,
            None => r is Err,
        },
{
    let t = match bytes_to_str(b) {
        Some(t) => t,
        None => {
            return Err(DecodeError);
        },
    };
    proof {
        vstd::utf8::encode_utf8_valid_utf8(t@);
        vstd::utf8::encode_utf8_decode_utf8(t@);
        assert(decode_utf8(b@) == t@);
    }
    let n = t.unicode_len();
    if n < 8 {
        return Err(DecodeError);
    }
    if !check_key_prefix(t) {
        return Err(DecodeError);
    }
    let (key_s, p1) = match parse_string_at(t, 8) {
        Some(p) => p,
        None => {
            return Err(DecodeError);
        },
    };
    proof {
        assert(t@.skip(p1 as int).len() == n - p1);
    }
    if n - p1 < 10 {
        return Err(DecodeError);
    }
    proof {
        assert(t@.skip(p1 as int).take(10) =~= t@.subrange(p1 as int, p1 as int + 10));
    }
    if !check_value_sep(t, p1) {
        return Err(DecodeError);
    }
    proof {
        assert(t@.skip(p1 as int).skip(10) =~= t@.skip(p1 as int + 10));
    }
    let (val_s, p2) = match parse_string_at(t, p1 + 10) {
        Some(p) => p,
        None => {
            return Err(DecodeError);
        },
    };
    proof {
        assert(t@.skip(p2 as int).len() == n - p2);
    }
    if n - p2 == 1 && t.get_char(p2) == '}' {
        proof {
            assert(t@.skip(p2 as int)[0] == t@[p2 as int]);
            assert(t@.skip(p2 as int) =~= closing());
        }
        Ok(CacheEntry { key: key_s, value: val_s })
    } else {
        proof {
            if t@.skip(p2 as int) == closing() {
                assert(t@.skip(p2 as int).len() == 1);
                assert(t@[p2 as int] == t@.skip(p2 as int)[0]);
            }
        }
        Err(DecodeError)
    }
}

/// Reading escaped content finds exactly the original string and leaves the
/// text that follows its closing quote untouched.
pub proof fn lemma_parse_escape(x: Seq<char>, rest: Seq<char>)
    ensures
        parse_string(escape(x) + quote() + rest) == Some((x, rest)),
    decreases x.len(),
{
    let s = escape(x) + quote() + rest;
    if x.len() == 0 {
        assert(s =~= seq!['"'] + rest);
        assert(s[0] == '"');
        assert(s.skip(1) =~= rest);
        assert(x =~= Seq::<char>::empty());
    } else {
        let c = x[0];
        let e1 = escape(x.skip(1));
        lemma_parse_escape(x.skip(1), rest);
        if c == '"' || c == '\\' {
            assert(s =~= seq!['\\', c] + (e1 + quote() + rest));
            assert(s[0] == '\\');
            assert(s[1] == c);
            assert(s.len() >= 2);
            assert(s.skip(2) =~= e1 + quote() + rest);
            assert(seq![c] + x.skip(1) =~= x);
        } else {
            assert(s =~= seq![c] + (e1 + quote() + rest));
            assert(s[0] == c);
            assert(s.skip(1) =~= e1 + quote() + rest);
            assert(seq![c] + x.skip(1) =~= x);
        }
    }
}

/// Round trip at the text level: decoding an encoded entry's text finds the
/// entry again.
pub proof fn lemma_text_round_trip(k: Seq<char>, v: Seq<char>)
    ensures
        spec_decode_text(spec_encode_text(k, v)) == Some((k, v)),
{
    let text = spec_encode_text(k, v);
    let rest1 = value_sep() + escape(v) + quote() + closing();
    assert(text.len() >= 8);
    assert(text.take(8) =~= key_prefix());
    assert(text.skip(8) =~= escape(k) + quote() + rest1);
    lemma_parse_escape(k, rest1);
    assert(parse_string(text.skip(8)) == Some((k, rest1)));
    assert(rest1.len() >= 10);
    assert(rest1.take(10) =~= value_sep());
    assert(rest1.skip(10) =~= escape(v) + quote() + closing());
    lemma_parse_escape(v, closing());
    assert(parse_string(rest1.skip(10)) == Some((v, closing())));
}

/// The round-trip law: decoding the encoding of any entry yields that entry.
pub proof fn lemma_round_trip(k: Seq<char>, v: Seq<char>)
    ensures
        spec_decode(spec_encode(k, v)) == Some((k, v)),
{
    let text = spec_encode_text(k, v);
    vstd::utf8::encode_utf8_valid_utf8(text);
    vstd::utf8::encode_utf8_decode_utf8(text);
    lemma_text_round_trip(k, v);
}

} // verus!
