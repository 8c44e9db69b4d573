//! The cache file's format: one JSON object whose keys are tool names and
//! whose values are objects `{"last_check": <integer>, "latest": "<string>"}`.
//!
//! The encoder writes the canonical compact form; the decoder accepts
//! exactly that form and answers nothing for anything else, which the
//! caller treats as an empty cache. Names and versions are written
//! unescaped, so only strings of printable ASCII without `"` or `\` are
//! encodable; a cache holding any other string is not persisted.
//!
//! Decoding an encoded cache reproduces every entry exactly
//! (`lemma_encode_decode`).

use vstd::prelude::*;

use crate::cache::{unique_names, ToolVersionInfo, VersionCache};
use crate::version::{digit_val, is_digit_char};

verus! {

/// A character that may stand unescaped inside a JSON string: printable
/// ASCII, no quote, no backslash.
pub open spec fn plain_char(c: char) -> bool {
    ' ' <= c && c <= '~' && c != '"' && c != '\\'
}

/// Every character is plain.
pub open spec fn plain_str(s: Seq<char>) -> bool {
    forall|i: int| 0 <= i < s.len() ==> plain_char(s[i])
}

/// Every name and version among the entries is plain.
pub open spec fn encodable(s: Seq<(Seq<char>, u64, Seq<char>)>) -> bool {
    forall|i: int| 0 <= i < s.len() ==> plain_str(#[trigger] s[i].0) && plain_str(s[i].2)
}

/// The character of one decimal digit.
pub open spec fn dec_digit(d: nat) -> char {
    if d == 0 {
        '0'
    } else if d == 1 {
        '1'
    } else if d == 2 {
        '2'
    } else if d == 3 {
        '3'
    } else if d == 4 {
        '4'
    } else if d == 5 {
        '5'
    } else if d == 6 {
        '6'
    } else if d == 7 {
        '7'
    } else if d == 8 {
        '8'
    } else {
        '9'
    }
}

/// The decimal digits of `n`, most significant first.
pub open spec fn dec_chars(n: nat) -> Seq<char>
    decreases n,
{
    if n < 10 {
        seq![dec_digit(n)]
    } else {
        dec_chars(n / 10).push(dec_digit(n % 10))
    }
}

/// What stands between a name's closing quote and its record's timestamp.
pub open spec fn key_mid() -> Seq<char> {
    seq![':', '{', '"', 'l', 'a', 's', 't', '_', 'c', 'h', 'e', 'c', 'k', '"', ':']
}

/// What stands between the timestamp and the version's opening quote.
pub open spec fn key_latest() -> Seq<char> {
    seq![',', '"', 'l', 'a', 't', 'e', 's', 't', '"', ':', '"']
}

/// One entry's encoding.
pub open spec fn enc_entry(e: (Seq<char>, u64, Seq<char>)) -> Seq<char> {
    seq!['"'] + e.0 + seq!['"'] + key_mid() + dec_chars(e.1 as nat) + key_latest() + e.2 + seq![
        '"',
        '}',
    ]
}

/// The entries' encodings, separated by commas.
pub open spec fn enc_entries(s: Seq<(Seq<char>, u64, Seq<char>)>) -> Seq<char>
    decreases s.len(),
{
    if s.len() == 0 {
        Seq::empty()
    } else if s.len() == 1 {
        enc_entry(s[0])
    } else {
        enc_entry(s[0]) + seq![','] + enc_entries(s.drop_first())
    }
}

/// The whole file: the entries inside one object's braces.
pub open spec fn spec_encode(s: Seq<(Seq<char>, u64, Seq<char>)>) -> Seq<char> {
    seq!['{'] + enc_entries(s) + seq!['}']
}

/// Read a string body up to its closing quote; only plain characters may
/// appear. Yields the body and what follows the quote.
pub open spec fn parse_qstring(s: Seq<char>) -> Option<(Seq<char>, Seq<char>)>
    decreases s.len(),
{
    if s.len() == 0 {
        None
    } else if s[0] == '"' {
        Some((Seq::empty(), s.drop_first()))
    } else if plain_char(s[0]) {
        match parse_qstring(s.drop_first()) {
            Some(p) => Some((seq![s[0]] + p.0, p.1)),
            None => None,
        }
    } else {
        None
    }
}

/// Consume leading digits into an accumulated value.
pub open spec fn parse_num_acc(s: Seq<char>, acc: nat) -> (nat, Seq<char>)
    decreases s.len(),
{
    if s.len() > 0 && is_digit_char(s[0]) {
        parse_num_acc(s.drop_first(), acc * 10 + digit_val(s[0]))
    } else {
        (acc, s)
    }
}

/// Read a decimal number: at least one digit, taken greedily.
pub open spec fn parse_num(s: Seq<char>) -> Option<(nat, Seq<char>)> {
    if s.len() > 0 && is_digit_char(s[0]) {
        Some(parse_num_acc(s, 0))
    } else {
        None
    }
}

/// Drop `p` off the front of `s`, if it stands there.
pub open spec fn skip_prefix(s: Seq<char>, p: Seq<char>) -> Option<Seq<char>> {
    if p.len() <= s.len() && s.subrange(0, p.len() as int) == p {
        Some(s.skip(p.len() as int))
    } else {
        None
    }
}

/// Read one entry: quoted name, its record's fixed frame, the timestamp,
/// the quoted version, the record's closing brace.
pub open spec fn parse_entry(s: Seq<char>) -> Option<
    ((Seq<char>, u64, Seq<char>), Seq<char>),
> {
    if s.len() == 0 || s[0] != '"' {
        None
    } else {
        match parse_qstring(s.drop_first()) {
            None => None,
            Some((name, r1)) => match skip_prefix(r1, key_mid()) {
                None => None,
                Some(r2) => match parse_num(r2) {
                    None => None,
                    Some((val, r3)) => if val > u64::MAX {
                        None
                    } else {
                        match skip_prefix(r3, key_latest()) {
                            None => None,
                            Some(r4) => match parse_qstring(r4) {
                                None => None,
                                Some((latest, r5)) => if r5.len() > 0 && r5[0] == '}' {
                                    Some(((name, val as u64, latest), r5.drop_first()))
                                } else {
                                    None
                                },
                            },
                        }
                    },
                },
            },
        }
    }
}

/// Read a comma-separated list of entries. A successful entry parse
/// consumes input, so the explicit length test only makes termination
/// structural.
pub open spec fn parse_entries(s: Seq<char>) -> Option<
    (Seq<(Seq<char>, u64, Seq<char>)>, Seq<char>),
>
    decreases s.len(),
{
    match parse_entry(s) {
        None => None,
        Some((e, r)) => if r.len() > 0 && r[0] == ',' {
            if r.len() < s.len() {
                match parse_entries(r.drop_first()) {
                    None => None,
                    Some((es, rest)) => Some((seq![e] + es, rest)),
                }
            } else {
                None
            }
        } else {
            Some((seq![e], r))
        },
    }
}

/// The mapping a file's characters denote, entry by entry in file order,
/// or nothing if the file is not the canonical form.
pub open spec fn spec_decode(s: Seq<char>) -> Option<Seq<(Seq<char>, u64, Seq<char>)>> {
    if s.len() < 2 || s[0] != '{' {
        None
    } else if s.len() == 2 && s[1] == '}' {
        Some(Seq::empty())
    } else {
        match parse_entries(s.drop_first()) {
            None => None,
            Some((es, r)) => if r.len() == 1 && r[0] == '}' {
                Some(es)
            } else {
                None
            },
        }
    }
}

/// Digit characters are digits, are plain, and carry their value.
proof fn lemma_dec_digit(d: nat)
    requires
        d < 10,
    ensures
        is_digit_char(dec_digit(d)),
        plain_char(dec_digit(d)),
        digit_val(dec_digit(d)) == d,
{
}

/// A number's digits: at least one, all digits, all plain.
proof fn lemma_dec_chars_digits(n: nat)
    ensures
        dec_chars(n).len() >= 1,
        forall|i: int|
            0 <= i < dec_chars(n).len() ==> is_digit_char(#[trigger] dec_chars(n)[i]) && plain_char(
                dec_chars(n)[i],
            ),
    decreases n,
{
    if n < 10 {
        lemma_dec_digit(n);
    } else {
        lemma_dec_chars_digits(n / 10);
        lemma_dec_digit(n % 10);
        assert(forall|i: int|
            0 <= i < dec_chars(n / 10).len() ==> dec_chars(n)[i] == dec_chars(n / 10)[i]);
        assert(dec_chars(n).last() == dec_digit(n % 10));
    }
}

/// Powers of ten.
spec fn pow10(k: nat) -> nat
    decreases k,
{
    if k == 0 {
        1
    } else {
        10 * pow10((k - 1) as nat)
    }
}

/// Consuming a number's digits shifts the accumulator past them.
proof fn lemma_parse_num_shift(n: nat, rest: Seq<char>, acc: nat)
    ensures
        parse_num_acc(dec_chars(n) + rest, acc) == parse_num_acc(
            rest,
            acc * pow10(dec_chars(n).len()) + n,
        ),
    decreases n,
{
    lemma_dec_chars_digits(n);
    if n < 10 {
        let s = dec_chars(n) + rest;
        lemma_dec_digit(n);
        assert(s[0] == dec_digit(n));
        assert(s.drop_first() =~= rest);
        assert(pow10(0) == 1);
        assert(pow10(1) == 10);
        assert(acc * pow10(1) == acc * 10) by (nonlinear_arith)
            requires
                pow10(1) == 10,
        ;
    } else {
        let k = dec_chars(n / 10).len();
        let d = (n % 10) as nat;
        assert(dec_chars(n) + rest =~= dec_chars(n / 10) + (seq![dec_digit(d)] + rest));
        lemma_parse_num_shift(n / 10, seq![dec_digit(d)] + rest, acc);
        let mid = acc * pow10(k) + n / 10;
        let s2 = seq![dec_digit(d)] + rest;
        lemma_dec_digit(d);
        assert(s2[0] == dec_digit(d));
        assert(s2.drop_first() =~= rest);
        assert(parse_num_acc(s2, mid) == parse_num_acc(rest, mid * 10 + d));
        assert(dec_chars(n).len() == k + 1);
        assert(mid * 10 + d == acc * pow10(k + 1) + n) by (nonlinear_arith)
            requires
                mid == acc * pow10(k) + n / 10,
                pow10(k + 1) == 10 * pow10(k),
                n >= 10,
                d == n % 10,
        {
            assert(n / 10 * 10 + n % 10 == n);
        }
    }
}

/// A number followed by a non-digit reads back as itself.
proof fn lemma_parse_num_inverts(n: nat, rest: Seq<char>)
    requires
        rest.len() == 0 || !is_digit_char(rest[0]),
    ensures
        parse_num(dec_chars(n) + rest) == Some((n, rest)),
{
    lemma_dec_chars_digits(n);
    let s = dec_chars(n) + rest;
    assert(s[0] == dec_chars(n)[0]);
    lemma_parse_num_shift(n, rest, 0);
    assert(0 * pow10(dec_chars(n).len()) == 0) by (nonlinear_arith);
    assert(parse_num_acc(rest, n) == (n, rest));
}

/// A plain string body followed by its closing quote reads back as itself.
proof fn lemma_parse_qstring_inverts(content: Seq<char>, rest: Seq<char>)
    requires
        plain_str(content),
    ensures
        parse_qstring(content + seq!['"'] + rest) == Some((content, rest)),
    decreases content.len(),
{
    let s = content + seq!['"'] + rest;
    if content.len() == 0 {
        assert(s[0] == '"');
        assert(s.drop_first() =~= rest);
    } else {
        assert(s[0] == content[0]);
        assert(plain_char(content[0]));
        assert(content[0] != '"');
        assert(s.drop_first() =~= content.drop_first() + seq!['"'] + rest);
        assert(plain_str(content.drop_first()));
        lemma_parse_qstring_inverts(content.drop_first(), rest);
        assert(seq![content[0]] + content.drop_first() =~= content);
    }
}

/// A marked prefix is dropped exactly.
proof fn lemma_skip_prefix(p: Seq<char>, t: Seq<char>)
    ensures
        skip_prefix(p + t, p) == Some(t),
{
    assert((p + t).subrange(0, p.len() as int) =~= p);
    assert((p + t).skip(p.len() as int) =~= t);
}

/// One encoded entry, before arbitrary further text, reads back as itself.
proof fn lemma_parse_entry_inverts(e: (Seq<char>, u64, Seq<char>), rest: Seq<char>)
    requires
        plain_str(e.0),
        plain_str(e.2),
    ensures
        parse_entry(enc_entry(e) + rest) == Some((e, rest)),
{
    let s = enc_entry(e) + rest;
    let r1 = key_mid() + dec_chars(e.1 as nat) + key_latest() + e.2 + seq!['"', '}'] + rest;
    let r2 = dec_chars(e.1 as nat) + (key_latest() + e.2 + seq!['"', '}'] + rest);
    let r3 = key_latest() + (e.2 + seq!['"', '}'] + rest);
    let r4 = e.2 + seq!['"'] + (seq!['}'] + rest);
    assert(s[0] == '"');
    assert(s.drop_first() =~= e.0 + seq!['"'] + r1);
    lemma_parse_qstring_inverts(e.0, r1);
    assert(r1 =~= key_mid() + (dec_chars(e.1 as nat) + (key_latest() + e.2 + seq!['"', '}']
        + rest)));
    lemma_skip_prefix(key_mid(), dec_chars(e.1 as nat) + (key_latest() + e.2 + seq!['"', '}']
        + rest));
    assert(dec_chars(e.1 as nat) + (key_latest() + e.2 + seq!['"', '}'] + rest) =~= r2);
    assert(r2 =~= dec_chars(e.1 as nat) + r3);
    assert(r3[0] == ',');
    assert(!is_digit_char(','));
    lemma_parse_num_inverts(e.1 as nat, r3);
    assert(r3 =~= key_latest() + (e.2 + seq!['"', '}'] + rest));
    lemma_skip_prefix(key_latest(), e.2 + seq!['"', '}'] + rest);
    assert(e.2 + seq!['"', '}'] + rest =~= r4);
    lemma_parse_qstring_inverts(e.2, seq!['}'] + rest);
    let r5 = seq!['}'] + rest;
    assert(r5[0] == '}');
    assert(r5.drop_first() =~= rest);
    assert((e.0, e.1, e.2) == e);
}

/// An encoded entry is never empty.
proof fn lemma_enc_entry_len(e: (Seq<char>, u64, Seq<char>))
    ensures
        enc_entry(e).len() >= 5,
{
    lemma_dec_chars_digits(e.1 as nat);
}

/// An encoded entry list, before the object's closing brace, reads back as
/// the same entries with exactly the brace left.
proof fn lemma_parse_entries_inverts(es: Seq<(Seq<char>, u64, Seq<char>)>)
    requires
        es.len() >= 1,
        encodable(es),
    ensures
        parse_entries(enc_entries(es) + seq!['}']) == Some((es, seq!['}'])),
    decreases es.len(),
{
    let s = enc_entries(es) + seq!['}'];
    lemma_enc_entry_len(es[0]);
    if es.len() == 1 {
        lemma_parse_entry_inverts(es[0], seq!['}']);
        assert(s =~= enc_entry(es[0]) + seq!['}']);
        assert(seq![es[0]] =~= es);
    } else {
        let tail = enc_entries(es.drop_first()) + seq!['}'];
        let r = seq![','] + tail;
        assert(s =~= enc_entry(es[0]) + r);
        lemma_parse_entry_inverts(es[0], r);
        assert(r[0] == ',');
        assert(r.len() < s.len());
        assert(r.drop_first() =~= tail);
        assert(encodable(es.drop_first())) by {
            assert(forall|i: int|
                0 <= i < es.drop_first().len() ==> es.drop_first()[i] == es[i + 1]);
        }
        lemma_parse_entries_inverts(es.drop_first());
        assert(seq![es[0]] + es.drop_first() =~= es);
    }
}

/// Decoding an encoded cache reproduces every entry: the same names, in the
/// same order, with identical timestamps and versions.
pub proof fn lemma_encode_decode(es: Seq<(Seq<char>, u64, Seq<char>)>)
    requires
        encodable(es),
    ensures
        spec_decode(spec_encode(es)) == Some(es),
{
    let s = spec_encode(es);
    assert(s[0] == '{');
    if es.len() == 0 {
        assert(enc_entries(es).len() == 0);
        assert(s.len() == 2);
        assert(s[1] == '}');
        assert(es =~= Seq::<(Seq<char>, u64, Seq<char>)>::empty());
    } else {
        lemma_enc_entry_len(es[0]);
        assert(enc_entries(es).len() >= 5);
        assert(s.len() > 2);
        assert(s.drop_first() =~= enc_entries(es) + seq!['}']);
        lemma_parse_entries_inverts(es);
    }
}

/// Appending an entry appends its encoding, after a comma if any entry
/// came before.
proof fn lemma_enc_entries_push(s: Seq<(Seq<char>, u64, Seq<char>)>, e: (Seq<char>, u64, Seq<char>))
    ensures
        enc_entries(s.push(e)) == if s.len() == 0 {
            enc_entry(e)
        } else {
            enc_entries(s) + seq![','] + enc_entry(e)
        },
    decreases s.len(),
{
    if s.len() == 0 {
        assert(s.push(e)[0] == e);
    } else {
        assert(s.push(e)[0] == s[0]);
        assert(s.push(e).drop_first() =~= s.drop_first().push(e));
        lemma_enc_entries_push(s.drop_first(), e);
        if s.len() == 1 {
            assert(enc_entries(s.push(e)) == enc_entry(s[0]) + seq![','] + enc_entry(e));
            assert(enc_entries(s) == enc_entry(s[0]));
        } else {
            assert(enc_entries(s.push(e)) == enc_entry(s[0]) + seq![','] + (enc_entries(
                s.drop_first(),
            ) + seq![','] + enc_entry(e)));
            assert(enc_entry(s[0]) + seq![','] + (enc_entries(s.drop_first()) + seq![',']
                + enc_entry(e)) =~= (enc_entry(s[0]) + seq![','] + enc_entries(s.drop_first()))
                + seq![','] + enc_entry(e));
        }
    }
}

/// Relies on `String`'s `FromIterator` over `char`: the collected string
/// holds exactly the given characters, in order.
#[verifier::external_body]
fn chars_to_string(v: Vec<char>) -> (r: String)
    ensures
        r@ == v@,
{
    v.into_iter().collect()
}

/// Executable test for a plain character.
fn is_plain_char(c: char) -> (r: bool)
    ensures
        r == plain_char(c),
{
    let u = c as u32;
    32 <= u && u <= 126 && c != '"' && c != '\\'
}

/// The character of one digit.
fn dec_digit_char(d: u64) -> (c: char)
    requires
        d < 10,
    ensures
        c == dec_digit(d as nat),
{
    if d == 0 {
        '0'
    } else if d == 1 {
        '1'
    } else if d == 2 {
        '2'
    } else if d == 3 {
        '3'
    } else if d == 4 {
        '4'
    } else if d == 5 {
        '5'
    } else if d == 6 {
        '6'
    } else if d == 7 {
        '7'
    } else if d == 8 {
        '8'
    } else {
        '9'
    }
}

/// Append the decimal digits of `n`.
fn push_dec(out: &mut Vec<char>, n: u64)
    ensures
        final(out)@ == old(out)@ + dec_chars(n as nat),
    decreases n,
{
    if n < 10 {
        out.push(dec_digit_char(n));
        proof {
            assert(out@ =~= old(out)@ + dec_chars(n as nat));
        }
    } else {
        push_dec(out, n / 10);
        out.push(dec_digit_char(n % 10));
        proof {
            assert(out@ =~= old(out)@ + dec_chars(n as nat));
        }
    }
}

/// Append the characters of `s`, which must all be plain.
fn push_plain_str(out: &mut Vec<char>, s: &str) -> (ok: bool)
    ensures
        ok ==> plain_str(s@) && final(out)@ == old(out)@ + s@,
        !ok ==> !plain_str(s@),
{
    let n = s.unicode_len();
    let mut i: usize = 0;
    while i < n
        invariant
            i <= n,
            n == s@.len(),
            out@ == old(out)@ + s@.subrange(0, i as int),
            forall|j: int| 0 <= j < i ==> plain_char(s@[j]),
        decreases n - i,
    {
        let c = s.get_char(i);
        if !is_plain_char(c) {
            return false;
        }
        out.push(c);
        proof {
            assert(out@ =~= old(out)@ + s@.subrange(0, i + 1 as int));
        }
        i += 1;
    }
    proof {
        assert(s@.subrange(0, n as int) =~= s@);
    }
    true
}

/// Append `key_mid`.
fn push_key_mid(out: &mut Vec<char>)
    ensures
        final(out)@ == old(out)@ + key_mid(),
{
    out.push(':');
    out.push('{');
    out.push('"');
    out.push('l');
    out.push('a');
    out.push('s');
    out.push('t');
    out.push('_');
    out.push('c');
    out.push('h');
    out.push('e');
    out.push('c');
    out.push('k');
    out.push('"');
    out.push(':');
    proof {
        assert(out@ =~= old(out)@ + key_mid());
    }
}

/// Append `key_latest`.
fn push_key_latest(out: &mut Vec<char>)
    ensures
        final(out)@ == old(out)@ + key_latest(),
{
    out.push(',');
    out.push('"');
    out.push('l');
    out.push('a');
    out.push('t');
    out.push('e');
    out.push('s');
    out.push('t');
    out.push('"');
    out.push(':');
    out.push('"');
    proof {
        assert(out@ =~= old(out)@ + key_latest());
    }
}

/// Serialize the cache to the canonical file text: every entry in order,
/// exactly when every name and version it holds is plain.
#[verifier::rlimit(100)]
#[verifier::loop_isolation(false)]
pub fn encode_cache(cache: &VersionCache) -> (r: Option<String>)
    ensures
        match r {
            Some(text) => encodable(cache.models()) && text@ == spec_encode(cache.models()),
            None => !encodable(cache.models()),
        },
{
    let n = cache.entry_count();
    let mut out: Vec<char> = Vec::new();
    out.push('{');
    let mut i: usize = 0;
    while i < n
        invariant
            i <= n,
            n == cache.models().len(),
            out@ == seq!['{'] + enc_entries(cache.models().take(i as int)),
            forall|j: int| 0 <= j < i ==> plain_str(#[trigger] cache.models()[j].0),
            forall|j: int| 0 <= j < i ==> plain_str(#[trigger] cache.models()[j].2),
        decreases n - i,
    {
        let ghost done = cache.models().take(i as int);
        let ghost e = cache.models()[i as int];
        if i > 0 {
            out.push(',');
        }
        out.push('"');
        let (name, info) = cache.entry_at(i);
        if !push_plain_str(&mut out, name.as_str()) {
            proof {
                assert(!plain_str(cache.models()[i as int].0));
            }
            return None;
        }
        out.push('"');
        push_key_mid(&mut out);
        push_dec(&mut out, info.last_check);
        push_key_latest(&mut out);
        if !push_plain_str(&mut out, info.latest.as_str()) {
            proof {
                assert(cache.models()[i as int].0 == name@);
                assert(!plain_str(cache.models()[i as int].2));
            }
            return None;
        }
        out.push('"');
        out.push('}');
        proof {
            assert(plain_str(cache.models()[i as int].0));
            assert(plain_str(cache.models()[i as int].2));
            lemma_enc_entries_push(done, e);
            assert(cache.models().take(i + 1 as int) =~= done.push(e));
            if i == 0 {
                assert(out@ =~= seq!['{'] + enc_entry(e));
            } else {
                assert(out@ =~= seq!['{'] + (enc_entries(done) + seq![','] + enc_entry(e)));
            }
            assert(forall|j: int| 0 <= j < i + 1 ==> plain_str(#[trigger] cache.models()[j].0));
            assert(forall|j: int| 0 <= j < i + 1 ==> plain_str(#[trigger] cache.models()[j].2));
        }
        i += 1;
    }
    out.push('}');
    proof {
        assert(cache.models().take(n as int) =~= cache.models());
        assert(out@ =~= spec_encode(cache.models()));
    }
    Some(chars_to_string(out))
}

/// A scan that met a forbidden character, or no closing quote at all,
/// is exactly how the string parse fails.
proof fn lemma_parse_qstring_fail(s: Seq<char>, k: int)
    requires
        0 <= k <= s.len(),
        forall|l: int| 0 <= l < k ==> plain_char(#[trigger] s[l]),
        k == s.len() || (!plain_char(s[k]) && s[k] != '"'),
    ensures
        parse_qstring(s) is None,
    decreases k,
{
    if s.len() == 0 {
    } else if k == 0 {
    } else {
        assert(s[0] != '"');
        assert(forall|l: int| 0 <= l < k - 1 ==> s.drop_first()[l] == s[l + 1]);
        lemma_parse_qstring_fail(s.drop_first(), k - 1);
    }
}

/// Read a string body up to its closing quote, starting at `start`.
fn scan_qstring(v: &Vec<char>, start: usize) -> (r: Option<(String, usize)>)
    requires
        start <= v@.len(),
    ensures
        match r {
            Some(p) => start < p.1 <= v@.len() && parse_qstring(v@.skip(start as int)) == Some(
                (p.0@, v@.skip(p.1 as int)),
            ),
            None => parse_qstring(v@.skip(start as int)) is None,
        },
{
    let n = v.len();
    let mut j = start;
    let mut buf: Vec<char> = Vec::new();
    while j < n
        invariant
            start <= j <= n,
            n == v@.len(),
            buf@ == v@.subrange(start as int, j as int),
            forall|l: int| start <= l < j ==> plain_char(#[trigger] v@[l]),
        decreases n - j,
    {
        let c = v[j];
        if c == '"' {
            proof {
                assert(v@.skip(start as int) =~= buf@ + seq!['"'] + v@.skip(j + 1 as int));
                assert(forall|l: int| 0 <= l < buf@.len() ==> buf@[l] == v@[start + l]);
                lemma_parse_qstring_inverts(buf@, v@.skip(j + 1 as int));
            }
            let content = chars_to_string(buf);
            return Some((content, j + 1));
        }
        if !is_plain_char(c) {
            proof {
                assert(forall|l: int|
                    0 <= l < j - start ==> v@.skip(start as int)[l] == v@[start + l]);
                lemma_parse_qstring_fail(v@.skip(start as int), j - start);
            }
            return None;
        }
        buf.push(c);
        j += 1;
    }
    proof {
        assert(forall|l: int| 0 <= l < n - start ==> v@.skip(start as int)[l] == v@[start + l]);
        lemma_parse_qstring_fail(v@.skip(start as int), n - start);
    }
    None
}

/// Read a decimal number starting at `start`; a value past `u64` range is
/// answered with nothing, as the entry parse demands.
fn scan_num(v: &Vec<char>, start: usize) -> (r: Option<(u64, usize)>)
    requires
        start <= v@.len(),
    ensures
        match r {
            Some(p) => start < p.1 <= v@.len() && parse_num(v@.skip(start as int)) == Some(
                (p.0 as nat, v@.skip(p.1 as int)),
            ),
            None => match parse_num(v@.skip(start as int)) {
                Some(q) => q.0 > u64::MAX,
                None => true,
            },
        },
{
    let n = v.len();
    if start >= n || !is_digit(v[start]) {
        proof {
            if start < n {
                assert(v@.skip(start as int)[0] == v@[start as int]);
            }
        }
        return None;
    }
    let mut j = start;
    let mut acc: u128 = 0;
    let mut over = false;
    let ghost mut gval: nat = 0nat;
    while j < n
        invariant
            start <= j <= n,
            n == v@.len(),
            is_digit_char(v@[start as int]),
            parse_num_acc(v@.skip(start as int), 0) == parse_num_acc(v@.skip(j as int), gval),
            !over ==> acc as nat == gval && gval <= u64::MAX,
            over ==> gval > u64::MAX,
        decreases n - j,
    {
        let c = v[j];
        if !is_digit(c) {
            proof {
                assert(v@.skip(j as int)[0] == v@[j as int]);
                assert(parse_num_acc(v@.skip(j as int), gval) == (gval, v@.skip(j as int)));
                assert(v@.skip(start as int)[0] == v@[start as int]);
                assert(parse_num(v@.skip(start as int)) == Some((gval, v@.skip(j as int))));
            }
            if over {
                return None;
            } else {
                return Some((acc as u64, j));
            }
        }
        let u = c as u32;
        let d = (u - 48) as u128;
        proof {
            assert(c == v@[j as int]);
            assert(digit_val(v@[j as int]) == d as nat);
            assert(v@.skip(j as int)[0] == v@[j as int]);
            assert(v@.skip(j as int).drop_first() =~= v@.skip(j + 1 as int));
            assert(parse_num_acc(v@.skip(j as int), gval) == parse_num_acc(
                v@.skip(j + 1 as int),
                gval * 10 + digit_val(v@[j as int]),
            ));
        }
        if !over {
            let nv = acc * 10 + d;
            if nv > 0xffff_ffff_ffff_ffffu128 {
                over = true;
            } else {
                acc = nv;
            }
        } else {
            proof {
                assert(gval * 10 + digit_val(v@[j as int]) >= gval);
            }
        }
        proof {
            gval = gval * 10 + digit_val(v@[j as int]);
        }
        j += 1;
    }
    proof {
        assert(v@.skip(j as int).len() == 0);
        assert(parse_num_acc(v@.skip(j as int), gval) == (gval, v@.skip(j as int)));
        assert(v@.skip(start as int)[0] == v@[start as int]);
        assert(parse_num(v@.skip(start as int)) == Some((gval, v@.skip(j as int))));
    }
    if over {
        None
    } else {
        Some((acc as u64, j))
    }
}

/// Executable test for a decimal digit.
fn is_digit(c: char) -> (r: bool)
    ensures
        r == is_digit_char(c),
{
    let u = c as u32;
    48 <= u && u <= 57
}

/// The cache a loaded file denotes: absence, unreadable content, anything
/// but the canonical form, and a file naming one tool twice are all an
/// empty cache, never an error.
pub fn cache_from_text(text: Option<&str>) -> (r: VersionCache)
    ensures
        r.wf(),
        match text {
            Some(t) => match spec_decode(t@) {
                Some(es) => if unique_names(es) {
                    r.models() == es
                } else {
                    r.models() =~= Seq::<(Seq<char>, u64, Seq<char>)>::empty()
                },
                None => r.models() =~= Seq::<(Seq<char>, u64, Seq<char>)>::empty(),
            },
            None => r.models() =~= Seq::<(Seq<char>, u64, Seq<char>)>::empty(),
        },
{
    match text {
        None => VersionCache::new(),
        Some(t) => match decode_cache(t) {
            Some(c) => c,
            None => VersionCache::new(),
        },
    }
}

/// Match the fixed characters of `key` at `start`.
fn scan_fixed(v: &Vec<char>, start: usize, key: &Vec<char>) -> (r: Option<usize>)
    requires
        start <= v@.len(),
    ensures
        match r {
            Some(j) => j == start + key@.len() && j <= v@.len() && skip_prefix(
                v@.skip(start as int),
                key@,
            ) == Some(v@.skip(j as int)),
            None => skip_prefix(v@.skip(start as int), key@) is None,
        },
{
    let n = v.len();
    let m = key.len();
    if n - start < m {
        return None;
    }
    let mut k: usize = 0;
    while k < m
        invariant
            k <= m,
            m == key@.len(),
            n == v@.len(),
            start + m <= n,
            forall|l: int| 0 <= l < k ==> v@[start + l] == key@[l],
        decreases m - k,
    {
        if v[start + k] != key[k] {
            proof {
                assert(v@.skip(start as int).subrange(0, m as int)[k as int] == v@[start + k]);
                assert(v@.skip(start as int).subrange(0, m as int) != key@);
            }
            return None;
        }
        k += 1;
    }
    proof {
        assert(v@.skip(start as int).subrange(0, m as int) =~= key@);
        assert(v@.skip(start as int).skip(m as int) =~= v@.skip(start + m));
    }
    Some(start + m)
}

/// Read one entry starting at `start`.
fn scan_entry(v: &Vec<char>, start: usize, mid: &Vec<char>, lat: &Vec<char>) -> (r: Option<
    ((String, u64, String), usize),
>)
    requires
        start <= v@.len(),
        mid@ == key_mid(),
        lat@ == key_latest(),
    ensures
        match r {
            Some(p) => start < p.1 <= v@.len() && parse_entry(v@.skip(start as int)) == Some(
                (((p.0).0@, (p.0).1, (p.0).2@), v@.skip(p.1 as int)),
            ),
            None => parse_entry(v@.skip(start as int)) is None,
        },
{
    let n = v.len();
    if start >= n || v[start] != '"' {
        return None;
    }
    proof {
        assert(v@.skip(start as int)[0] == '"');
        assert(v@.skip(start as int).drop_first() =~= v@.skip(start + 1 as int));
    }
    let (name, j1) = match scan_qstring(v, start + 1) {
        None => {
            return None;
        },
        Some(p) => p,
    };
    let j2 = match scan_fixed(v, j1, mid) {
        None => {
            return None;
        },
        Some(j) => j,
    };
    let (val, j3) = match scan_num(v, j2) {
        None => {
            return None;
        },
        Some(p) => p,
    };
    let j4 = match scan_fixed(v, j3, lat) {
        None => {
            return None;
        },
        Some(j) => j,
    };
    let (latest, j5) = match scan_qstring(v, j4) {
        None => {
            return None;
        },
        Some(p) => p,
    };
    if j5 < n && v[j5] == '}' {
        proof {
            assert(v@.skip(j5 as int)[0] == '}');
            assert(v@.skip(j5 as int).drop_first() =~= v@.skip(j5 + 1 as int));
        }
        Some(((name, val, latest), j5 + 1))
    } else {
        proof {
            if j5 < n {
                assert(v@.skip(j5 as int)[0] == v@[j5 as int]);
            } else {
                assert(v@.skip(j5 as int).len() == 0);
            }
        }
        None
    }
}

/// Parse the canonical file text back into a cache. Anything but the
/// canonical form — including a file naming one tool twice — is answered
/// with nothing, which the caller treats as an empty cache.
#[verifier::loop_isolation(false)]
#[verifier::rlimit(100)]
pub fn decode_cache(text: &str) -> (r: Option<VersionCache>)
    ensures
        match r {
            Some(c) => c.wf() && spec_decode(text@) == Some(c.models()),
            None => match spec_decode(text@) {
                Some(es) => !unique_names(es),
                None => true,
            },
        },
{
    let n0 = text.unicode_len();
    let mut v: Vec<char> = Vec::new();
    let mut t: usize = 0;
    while t < n0
        invariant
            t <= n0,
            n0 == text@.len(),
            v@ == text@.subrange(0, t as int),
        decreases n0 - t,
    {
        v.push(text.get_char(t));
        proof {
            assert(v@ =~= text@.subrange(0, t + 1 as int));
        }
        t += 1;
    }
    proof {
        assert(v@ =~= text@);
    }
    let n = v.len();
    if n < 2 || v[0] != '{' {
        return None;
    }
    if n == 2 {
        if v[1] == '}' {
            return Some(VersionCache::new());
        } else {
            return None;
        }
    }
    let mut mid: Vec<char> = Vec::new();
    push_key_mid(&mut mid);
    let mut lat: Vec<char> = Vec::new();
    push_key_latest(&mut lat);
    let mut cache = VersionCache::new();
    let ghost mut done: Seq<(Seq<char>, u64, Seq<char>)> = Seq::empty();
    let mut i: usize = 1;
    while i < n
        invariant
            1 <= i <= n,
            n == v@.len(),
            n > 2,
            v@ == text@,
            v@[0] == '{',
            mid@ == key_mid(),
            lat@ == key_latest(),
            cache.wf(),
            cache.models() == done,
            match parse_entries(v@.skip(i as int)) {
                Some(p) => parse_entries(v@.skip(1)) == Some((done + p.0, p.1)),
                None => parse_entries(v@.skip(1)) is None,
            },
        decreases n - i,
    {
        let scanned = match scan_entry(&v, i, &mid, &lat) {
            None => {
                return None;
            },
            Some(p) => p,
        };
        let ((name, val, latest), j) = scanned;
        let ghost e = (name@, val, latest@);
        let ghost rest_i = v@.skip(i as int);
        proof {
            assert(parse_entry(rest_i) == Some((e, v@.skip(j as int))));
            assert(match parse_entries(rest_i) {
                Some(p) => p.0.len() >= 1 && p.0[0] == e,
                None => true,
            });
        }
        if cache.lookup(name.as_str()).is_some() {
            proof {
                crate::cache::lemma_contains_key_index(&cache, name@);
                let k = choose|k: int| 0 <= k < done.len() && done[k].0 == name@;
                if parse_entries(rest_i) is Some {
                    let p = parse_entries(rest_i)->Some_0;
                    assert((done + p.0)[k] == done[k]);
                    assert((done + p.0)[done.len() as int] == p.0[0]);
                    assert(!unique_names(done + p.0));
                }
            }
            return None;
        }
        cache.push_entry(name, ToolVersionInfo { last_check: val, latest });
        proof {
            done = done.push(e);
        }
        if j < n && v[j] == ',' {
            proof {
                assert(v@.skip(j as int)[0] == ',');
                assert(v@.skip(j as int).len() < rest_i.len());
                assert(v@.skip(j as int).drop_first() =~= v@.skip(j + 1 as int));
                assert(match parse_entries(v@.skip(j + 1 as int)) {
                    Some(q) => {
                        &&& parse_entries(rest_i) == Some((seq![e] + q.0, q.1))
                        &&& done.drop_last() + (seq![e] + q.0) =~= done + q.0
                    },
                    None => parse_entries(rest_i) is None,
                });
            }
            i = j + 1;
        } else {
            proof {
                if j < n {
                    assert(v@.skip(j as int)[0] == v@[j as int]);
                } else {
                    assert(v@.skip(j as int).len() == 0);
                }
                assert(parse_entries(rest_i) == Some((seq![e], v@.skip(j as int))));
                assert(done.drop_last() + seq![e] =~= done);
                assert(parse_entries(v@.skip(1)) == Some((done, v@.skip(j as int))));
            }
            if j < n && v[j] == '}' && j + 1 == n {
                proof {
                    assert(v@.skip(j as int).len() == 1);
                    assert(v@.skip(j as int)[0] == '}');
                    assert(v@.skip(1) == text@.drop_first());
                    assert(spec_decode(text@) == Some(done));
                }
                return Some(cache);
            } else {
                proof {
                    assert(v@.skip(1) == text@.drop_first());
                    if j < n {
                        assert(v@.skip(j as int).len() == n - j);
                    }
                    assert(spec_decode(text@) is None);
                }
                return None;
            }
        }
    }
    proof {
        assert(v@.skip(i as int).len() == 0);
        assert(parse_entry(v@.skip(i as int)) is None);
        assert(parse_entries(v@.skip(1)) is None);
        assert(v@.skip(1) == text@.drop_first());
    }
    None
}

} // verus!
