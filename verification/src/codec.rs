//! The event stream's wire form: one JSON object per event, written and read
//! by this module alone. The encoding is deterministic and lossless; decoding
//! is its exact inverse, and the round trip is proved for every constructible
//! event.
//!
//! Shape: `{"type":"AppFocused","name":NAME,"pid":PID}` and
//! `{"type":"FileSaved","path":PATH}`, where NAME and PATH are JSON strings
//! (quote, backslash and control characters escaped) and PID is the decimal
//! digits of the process id.

use vstd::prelude::*;

use crate::EventModel;
use crate::WorkEvent;

verus! {

/// Whether `c` is a decimal digit.
pub open spec fn is_digit_char(c: char) -> bool {
    48 <= c as u32 <= 57
}

/// The digit character of a value below ten.
pub open spec fn digit_char(d: nat) -> char
    recommends
        d < 10,
{
    ((48 + d) as u8) as char
}

/// The numeric value of a digit character.
pub open spec fn digit_val(c: char) -> nat {
    (c as u32 - 48) as nat
}

/// The lower-case hex digit character of a value below sixteen.
pub open spec fn hex_char(d: nat) -> char
    recommends
        d < 16,
{
    if d < 10 {
        ((48 + d) as u8) as char
    } else {
        ((87 + d) as u8) as char
    }
}

/// Whether `c` is a lower-case hex digit.
pub open spec fn is_hex_char(c: char) -> bool {
    48 <= c as u32 <= 57 || 97 <= c as u32 <= 102
}

/// The numeric value of a lower-case hex digit character.
pub open spec fn hex_val(c: char) -> nat {
    if 48 <= c as u32 <= 57 {
        (c as u32 - 48) as nat
    } else {
        (c as u32 - 87) as nat
    }
}

/// The decimal digits of `n`, most significant first, no leading zero.
pub open spec fn dec_digits(n: nat) -> Seq<char>
    decreases n,
{
    if n < 10 {
        seq![digit_char(n)]
    } else {
        dec_digits(n / 10) + seq![digit_char(n % 10)]
    }
}

/// The escaped form of one character inside a JSON string: `"` and `\` get a
/// backslash, control characters become `\u00XX`, everything else stands as
/// itself.
pub open spec fn escape_char(c: char) -> Seq<char> {
    if c == '"' {
        seq!['\\', '"']
    } else if c == '\\' {
        seq!['\\', '\\']
    } else if (c as u32) < 32 {
        seq!['\\', 'u', '0', '0', hex_char((c as u32 / 16) as nat), hex_char(
            (c as u32 % 16) as nat,
        )]
    } else {
        seq![c]
    }
}

/// The escaped form of a whole string body.
pub open spec fn escape(s: Seq<char>) -> Seq<char>
    decreases s.len(),
{
    if s.len() == 0 {
        Seq::empty()
    } else {
        escape_char(s[0]) + escape(s.skip(1))
    }
}

/// The opening of an `AppFocused` object, up to and including the quote that
/// opens the name.
pub open spec fn pre_a() -> Seq<char> {
    "{\"type\":\"AppFocused\",\"name\":\""@
}

/// The opening of a `FileSaved` object, up to and including the quote that
/// opens the path.
pub open spec fn pre_f() -> Seq<char> {
    "{\"type\":\"FileSaved\",\"path\":\""@
}

/// The middle of an `AppFocused` object, between the quote that closes the
/// name and the first digit of the process id.
pub open spec fn mid_a() -> Seq<char> {
    ",\"pid\":"@
}

/// The encoding of an event.
pub open spec fn spec_encode(e: EventModel) -> Seq<char> {
    match e {
        EventModel::AppFocused { name, pid } => pre_a() + escape(name) + seq!['"'] + mid_a()
            + dec_digits(pid as nat) + seq!['}'],
        EventModel::FileSaved { path } => pre_f() + escape(path) + seq!['"', '}'],
    }
}

/// Escaping distributes over appending one character at the end.
proof fn lemma_escape_snoc(s: Seq<char>, c: char)
    ensures
        escape(s.push(c)) == escape(s) + escape_char(c),
    decreases s.len(),
{
    if s.len() == 0 {
        assert(s.push(c)[0] == c);
        assert(s.push(c).skip(1) =~= Seq::<char>::empty());
        assert(escape(Seq::<char>::empty()) =~= Seq::<char>::empty());
        assert(escape(s.push(c)) == escape_char(c) + escape(Seq::<char>::empty()));
        assert(escape(s.push(c)) =~= escape_char(c));
        assert(escape(s) + escape_char(c) =~= escape_char(c));
    } else {
        lemma_escape_snoc(s.skip(1), c);
        assert(s.push(c).skip(1) =~= s.skip(1).push(c));
        assert(s.push(c)[0] == s[0]);
        assert(escape_char(s[0]) + (escape(s.skip(1)) + escape_char(c)) =~= (escape_char(s[0])
            + escape(s.skip(1))) + escape_char(c));
    }
}

/// Append the characters of `lit` to `out`.
fn push_str_chars(out: &mut Vec<char>, lit: &str)
    ensures
        final(out)@ == old(out)@ + lit@,
{
    let n = lit.unicode_len();
    let mut i: usize = 0;
    while i < n
        invariant
            i <= n,
            n == lit@.len(),
            out@ == old(out)@ + lit@.take(i as int),
        decreases n - i,
    {
        out.push(lit.get_char(i));
        proof {
            assert(old(out)@ + lit@.take(i as int) + seq![lit@[i as int]] =~= old(out)@
                + lit@.take(i + 1));
        }
        i = i + 1;
    }
    proof {
        assert(lit@.take(n as int) =~= lit@);
    }
}

/// Append the escaped form of `s` to `out`.
fn push_escaped(out: &mut Vec<char>, s: &str)
    ensures
        final(out)@ == old(out)@ + escape(s@),
{
    let n = s.unicode_len();
    let mut i: usize = 0;
    proof {
        assert(escape(s@.take(0)) =~= Seq::<char>::empty());
        assert(out@ =~= old(out)@ + escape(s@.take(0)));
    }
    while i < n
        invariant
            i <= n,
            n == s@.len(),
            out@ == old(out)@ + escape(s@.take(i as int)),
        decreases n - i,
    {
        let c = s.get_char(i);
        if c == '"' {
            out.push('\\');
            out.push('"');
        } else if c == '\\' {
            out.push('\\');
            out.push('\\');
        } else if (c as u32) < 32 {
            let v = c as u32;
            out.push('\\');
            out.push('u');
            out.push('0');
            out.push('0');
            out.push(hex_digit((v / 16) as u8));
            out.push(hex_digit((v % 16) as u8));
        } else {
            out.push(c);
        }
        proof {
            lemma_escape_snoc(s@.take(i as int), c);
            assert(s@.take(i as int).push(c) =~= s@.take(i + 1));
            assert(out@ =~= old(out)@ + escape(s@.take(i + 1)));
        }
        i = i + 1;
    }
    proof {
        assert(s@.take(n as int) =~= s@);
    }
}

/// The lower-case hex digit character of `d`, for `d` below sixteen.
fn hex_digit(d: u8) -> (c: char)
    requires
        d < 16,
    ensures
        c == hex_char(d as nat),
{
    if d < 10 {
        (48 + d) as char
    } else {
        (87 + d) as char
    }
}

/// Append the decimal digits of `v` to `out`.
fn push_u32(out: &mut Vec<char>, v: u32)
    ensures
        final(out)@ == old(out)@ + dec_digits(v as nat),
    decreases v,
{
    if v < 10 {
        out.push((48 + v as u8) as char);
    } else {
        push_u32(out, v / 10);
        out.push((48 + (v % 10) as u8) as char);
    }
}

/// Relies on `String`'s `FromIterator<char>` implementation: collecting an
/// iterator of characters yields the string of exactly those characters, in
/// order.
#[verifier::external_body]
fn chars_to_string(v: &Vec<char>) -> (r: String)
    ensures
        r@ == v@,
{
    v.iter().collect()
}

impl WorkEvent {
    /// The canonical one-line JSON form of the event.
    pub fn to_json(&self) -> (r: String)
        ensures
            r@ == spec_encode(self@),
    {
        let mut out: Vec<char> = Vec::new();
        match self {
            WorkEvent::AppFocused { name, pid } => {
                push_str_chars(&mut out, "{\"type\":\"AppFocused\",\"name\":\"");
                push_escaped(&mut out, name.as_str());
                push_str_chars(&mut out, "\",\"pid\":");
                push_u32(&mut out, *pid);
                out.push('}');
                proof {
                    assert(out@ =~= spec_encode(self@)) by {
                        reveal_strlit("\",\"pid\":");
                        reveal_strlit(",\"pid\":");
                        assert("\",\"pid\":"@ =~= seq!['"'] + mid_a());
                    }
                }
            }
            WorkEvent::FileSaved { path } => {
                push_str_chars(&mut out, "{\"type\":\"FileSaved\",\"path\":\"");
                push_escaped(&mut out, path.as_str());
                push_str_chars(&mut out, "\"}");
                proof {
                    assert(out@ =~= spec_encode(self@)) by {
                        reveal_strlit("\"}");
                        assert("\"}"@ =~= seq!['"', '}']);
                    }
                }
            }
        }
        chars_to_string(&out)
    }
}

/// Parse the body of a JSON string up to and including its closing quote:
/// the unescaped content and the number of characters consumed. Accepts
/// exactly the escapes the encoder produces.
pub open spec fn parse_str_body(s: Seq<char>) -> Option<(Seq<char>, int)>
    decreases s.len(),
{
    if s.len() == 0 {
        None
    } else if s[0] == '"' {
        Some((Seq::empty(), 1))
    } else if s[0] == '\\' {
        if s.len() >= 2 && s[1] == '"' {
            match parse_str_body(s.skip(2)) {
                Some(r) => Some((seq!['"'] + r.0, r.1 + 2)),
                None => None,
            }
        } else if s.len() >= 2 && s[1] == '\\' {
            match parse_str_body(s.skip(2)) {
                Some(r) => Some((seq!['\\'] + r.0, r.1 + 2)),
                None => None,
            }
        } else if s.len() >= 6 && s[1] == 'u' && s[2] == '0' && s[3] == '0' && is_hex_char(s[4])
            && is_hex_char(s[5]) && hex_val(s[4]) * 16 + hex_val(s[5]) < 32 {
            match parse_str_body(s.skip(6)) {
                Some(r) => Some(
                    (seq![(((hex_val(s[4]) * 16 + hex_val(s[5])) as u8) as char)] + r.0, r.1 + 6),
                ),
                None => None,
            }
        } else {
            None
        }
    } else {
        match parse_str_body(s.skip(1)) {
            Some(r) => Some((seq![s[0]] + r.0, r.1 + 1)),
            None => None,
        }
    }
}

/// Parse a maximal run of decimal digits, most significant first, on top of
/// an already-accumulated value: the final value and the number of digits
/// consumed.
pub open spec fn parse_num_rec(s: Seq<char>, acc: nat) -> (nat, int)
    decreases s.len(),
{
    if s.len() > 0 && is_digit_char(s[0]) {
        let r = parse_num_rec(s.skip(1), acc * 10 + digit_val(s[0]));
        (r.0, r.1 + 1)
    } else {
        (acc, 0)
    }
}

/// Parse a decimal number: at least one digit, maximal run.
pub open spec fn parse_number(s: Seq<char>) -> Option<(nat, int)> {
    if s.len() > 0 && is_digit_char(s[0]) {
        Some(parse_num_rec(s, 0))
    } else {
        None
    }
}

/// The decoding of a candidate event text: `Some` exactly for the canonical
/// encodings, and then the event they encode.
pub open spec fn spec_decode(s: Seq<char>) -> Option<EventModel> {
    if pre_a().is_prefix_of(s) {
        let t = s.skip(pre_a().len() as int);
        match parse_str_body(t) {
            Some(sr) => {
                let rest = t.skip(sr.1);
                if mid_a().is_prefix_of(rest) {
                    match parse_number(rest.skip(mid_a().len() as int)) {
                        Some(nr) => {
                            if nr.0 <= u32::MAX && rest.skip(mid_a().len() as int).skip(nr.1)
                                == seq!['}'] {
                                Some(EventModel::AppFocused { name: sr.0, pid: nr.0 as u32 })
                            } else {
                                None
                            }
                        },
                        None => None,
                    }
                } else {
                    None
                }
            },
            None => None,
        }
    } else if pre_f().is_prefix_of(s) {
        let t = s.skip(pre_f().len() as int);
        match parse_str_body(t) {
            Some(sr) => {
                if t.skip(sr.1) == seq!['}'] {
                    Some(EventModel::FileSaved { path: sr.0 })
                } else {
                    None
                }
            },
            None => None,
        }
    } else {
        None
    }
}

/// A successful string-body parse consumes at least the closing quote and no
/// more than the whole input.
proof fn lemma_parse_str_body_bound(s: Seq<char>)
    ensures
        parse_str_body(s) matches Some(r) ==> 1 <= r.1 <= s.len(),
    decreases s.len(),
{
    if s.len() == 0 {
    } else if s[0] == '"' {
    } else if s[0] == '\\' {
        if s.len() >= 2 && (s[1] == '"' || s[1] == '\\') {
            lemma_parse_str_body_bound(s.skip(2));
        } else if s.len() >= 6 && s[1] == 'u' && s[2] == '0' && s[3] == '0' && is_hex_char(s[4])
            && is_hex_char(s[5]) && hex_val(s[4]) * 16 + hex_val(s[5]) < 32 {
            lemma_parse_str_body_bound(s.skip(6));
        }
    } else {
        lemma_parse_str_body_bound(s.skip(1));
    }
}

/// A digit run's parse never consumes more than the input, and its value is
/// at least the accumulator it started from.
proof fn lemma_parse_num_rec_bound(s: Seq<char>, acc: nat)
    ensures
        0 <= parse_num_rec(s, acc).1 <= s.len(),
        parse_num_rec(s, acc).0 >= acc,
    decreases s.len(),
{
    if s.len() > 0 && is_digit_char(s[0]) {
        lemma_parse_num_rec_bound(s.skip(1), acc * 10 + digit_val(s[0]));
    }
}

/// The value whose decimal digits are those of `acc` followed by those of
/// `n`.
pub open spec fn append_val(acc: nat, n: nat) -> nat
    decreases n,
{
    if n < 10 {
        acc * 10 + n
    } else {
        append_val(acc, n / 10) * 10 + n % 10
    }
}

/// Appending the digits of `n` to nothing gives `n` back.
proof fn lemma_append_val_zero(n: nat)
    ensures
        append_val(0, n) == n,
    decreases n,
{
    if n < 10 {
    } else {
        lemma_append_val_zero(n / 10);
        vstd::arithmetic::div_mod::lemma_fundamental_div_mod(n as int, 10);
    }
}

/// Parsing the digits of `n` followed by anything accumulates exactly `n`'s
/// digits and then goes on with the rest.
proof fn lemma_parse_digits(n: nat, t: Seq<char>, acc: nat)
    ensures
        parse_num_rec(dec_digits(n) + t, acc) == {
            let r = parse_num_rec(t, append_val(acc, n));
            (r.0, r.1 + dec_digits(n).len())
        },
    decreases n,
{
    if n < 10 {
        let s = dec_digits(n) + t;
        assert(s[0] == digit_char(n));
        assert(is_digit_char(digit_char(n)));
        assert(digit_val(digit_char(n)) == n);
        assert(s.skip(1) =~= t);
    } else {
        let d = digit_char(n % 10);
        let s = dec_digits(n) + t;
        assert(dec_digits(n) == dec_digits(n / 10) + seq![d]);
        assert(s =~= dec_digits(n / 10) + (seq![d] + t));
        lemma_parse_digits(n / 10, seq![d] + t, acc);
        let a2 = append_val(acc, n / 10);
        let s2 = seq![d] + t;
        assert(s2[0] == d);
        assert(is_digit_char(d));
        assert(digit_val(d) == n % 10);
        assert(s2.skip(1) =~= t);
        assert(parse_num_rec(s2, a2) == {
            let r = parse_num_rec(t, a2 * 10 + (n % 10));
            (r.0, r.1 + 1)
        });
        assert(append_val(acc, n) == a2 * 10 + n % 10);
        assert(dec_digits(n).len() == dec_digits(n / 10).len() + 1);
    }
}

/// A decimal rendering starts with a digit.
proof fn lemma_dec_digits_first(n: nat)
    ensures
        dec_digits(n).len() >= 1,
        is_digit_char(dec_digits(n)[0]),
    decreases n,
{
    if n < 10 {
        assert(dec_digits(n)[0] == digit_char(n));
    } else {
        lemma_dec_digits_first(n / 10);
        assert(dec_digits(n)[0] == dec_digits(n / 10)[0]);
    }
}

/// Parsing a string body that is an escaped text followed by the closing
/// quote recovers exactly the text, whatever follows the quote.
proof fn lemma_parse_escape(name: Seq<char>, t: Seq<char>)
    ensures
        parse_str_body(escape(name) + seq!['"'] + t) == Some(
            (name, escape(name).len() + 1 as int),
        ),
    decreases name.len(),
{
    let s = escape(name) + seq!['"'] + t;
    if name.len() == 0 {
        assert(escape(name) =~= Seq::<char>::empty());
        assert(s =~= seq!['"'] + t);
        assert(s[0] == '"');
        assert(s.len() > 0);
        assert(parse_str_body(s) == Some((Seq::<char>::empty(), 1 as int)));
        assert(Seq::<char>::empty() =~= name);
    } else {
        let c = name[0];
        let rest = name.skip(1);
        lemma_parse_escape(rest, t);
        let inner = escape(rest) + seq!['"'] + t;
        assert(escape(name) == escape_char(c) + escape(rest));
        assert(s =~= escape_char(c) + inner);
        assert(seq![c] + rest =~= name);
        if c == '"' {
            assert(s[0] == '\\' && s[1] == '"');
            assert(s.len() >= 2);
            assert(s.skip(2) =~= inner);
            assert(parse_str_body(s) == Some((seq![c] + rest, (escape(rest).len() + 1 + 2) as int)));
        } else if c == '\\' {
            assert(s[0] == '\\' && s[1] == '\\');
            assert(s.len() >= 2);
            assert(s.skip(2) =~= inner);
            assert(parse_str_body(s) == Some((seq![c] + rest, (escape(rest).len() + 1 + 2) as int)));
        } else if (c as u32) < 32 {
            let v = c as u32;
            vstd::arithmetic::div_mod::lemma_fundamental_div_mod(v as int, 16);
            assert(s[0] == '\\' && s[1] == 'u' && s[2] == '0' && s[3] == '0');
            assert(s[4] == hex_char((v / 16) as nat));
            assert(s[5] == hex_char((v % 16) as nat));
            assert(s.len() >= 6);
            assert(is_hex_char(s[4]));
            assert(is_hex_char(s[5]));
            assert(hex_val(s[4]) == v / 16);
            assert(hex_val(s[5]) == v % 16);
            assert(hex_val(s[4]) * 16 + hex_val(s[5]) == v);
            vstd::utf8::char_u32_cast(c, v);
            assert((((hex_val(s[4]) * 16 + hex_val(s[5])) as u8) as char) == c);
            assert(s.skip(6) =~= inner);
            assert(parse_str_body(s) == Some((seq![c] + rest, (escape(rest).len() + 1 + 6) as int)));
        } else {
            assert(s[0] == c);
            assert(c != '"' && c != '\\');
            assert(s.skip(1) =~= inner);
            assert(parse_str_body(s) == Some((seq![c] + rest, (escape(rest).len() + 1 + 1) as int)));
        }
    }
}

/// Whether the characters of `lit` stand in `s` at position `i`.
fn matches_at(s: &str, i: usize, lit: &str) -> (r: bool)
    requires
        i <= s@.len(),
    ensures
        r == lit@.is_prefix_of(s@.skip(i as int)),
{
    let n = s.unicode_len();
    let m = lit.unicode_len();
    if m > n - i {
        assert(s@.skip(i as int).len() == n - i);
        assert(!lit@.is_prefix_of(s@.skip(i as int)));
        return false;
    }
    let mut j: usize = 0;
    while j < m
        invariant
            j <= m,
            m == lit@.len(),
            n == s@.len(),
            i + m <= n,
            forall|k: int| 0 <= k < j ==> s@[i + k] == lit@[k],
        decreases m - j,
    {
        if s.get_char(i + j) != lit.get_char(j) {
            assert(!lit@.is_prefix_of(s@.skip(i as int))) by {
                assert(s@.skip(i as int)[j as int] == s@[i + j]);
                if lit@.is_prefix_of(s@.skip(i as int)) {
                    assert(s@.skip(i as int).subrange(0, lit@.len() as int)[j as int] == lit@[
                        j as int
                    ]);
                }
            }
            return false;
        }
        j = j + 1;
    }
    assert(lit@.is_prefix_of(s@.skip(i as int))) by {
        assert(lit@ =~= s@.skip(i as int).subrange(0, lit@.len() as int));
    }
    true
}

/// The value of a decimal digit character, or `None` for any other character.
fn char_digit(c: char) -> (r: Option<u8>)
    ensures
        match r {
            Some(d) => is_digit_char(c) && d == digit_val(c) && d < 10,
            None => !is_digit_char(c),
        },
{
    let v = c as u32;
    if 48 <= v && v <= 57 {
        Some((v - 48) as u8)
    } else {
        None
    }
}

/// The value of a lower-case hex digit character, or `None` for any other
/// character.
fn char_hex(c: char) -> (r: Option<u8>)
    ensures
        match r {
            Some(d) => is_hex_char(c) && d == hex_val(c) && d < 16,
            None => !is_hex_char(c),
        },
{
    let v = c as u32;
    if 48 <= v && v <= 57 {
        Some((v - 48) as u8)
    } else if 97 <= v && v <= 102 {
        Some((v - 87) as u8)
    } else {
        None
    }
}

/// Parse a JSON string body beginning at `start`: the unescaped content and
/// the count of characters consumed, closing quote included.
fn parse_string_at(s: &str, start: usize) -> (r: Option<(Vec<char>, usize)>)
    requires
        start <= s@.len(),
    ensures
        match r {
            Some(p) => parse_str_body(s@.skip(start as int)) == Some((p.0@, p.1 as int)) && start
                + p.1 <= s@.len(),
            None => parse_str_body(s@.skip(start as int)) is None,
        },
{
    let n = s.unicode_len();
    let mut out: Vec<char> = Vec::new();
    let mut i: usize = start;
    loop
        invariant
            start <= i <= n,
            n == s@.len(),
            match parse_str_body(s@.skip(i as int)) {
                Some(q) => parse_str_body(s@.skip(start as int)) == Some(
                    (out@ + q.0, q.1 + i - start),
                ),
                None => parse_str_body(s@.skip(start as int)) is None,
            },
        decreases n - i,
    {
        let ghost t = s@.skip(i as int);
        proof {
            lemma_parse_str_body_bound(t);
        }
        if i == n {
            assert(t.len() == 0);
            return None;
        }
        let c = s.get_char(i);
        assert(t[0] == c);
        if c == '"' {
            assert(parse_str_body(t) == Some((Seq::<char>::empty(), 1 as int)));
            assert(out@ + Seq::<char>::empty() =~= out@);
            return Some((out, i + 1 - start));
        } else if c == '\\' {
            if n - i < 2 {
                assert(t.len() < 2);
                assert(parse_str_body(t) is None);
                return None;
            }
            let c2 = s.get_char(i + 1);
            assert(t[1] == c2);
            if c2 == '"' || c2 == '\\' {
                proof {
                    assert(t.skip(2) =~= s@.skip(i + 2));
                }
                let ghost outpre = out@;
                out.push(c2);
                proof {
                    match parse_str_body(s@.skip(i + 2)) {
                        Some(q) => {
                            assert(parse_str_body(t) == Some((seq![c2] + q.0, q.1 + 2)));
                            assert(outpre + (seq![c2] + q.0) =~= out@ + q.0);
                        },
                        None => {
                            assert(parse_str_body(t) is None);
                        },
                    }
                }
                i = i + 2;
            } else if c2 == 'u' {
                if n - i < 6 {
                    assert(t.len() < 6);
                    assert(parse_str_body(t) is None);
                    return None;
                }
                let c3 = s.get_char(i + 2);
                let c4 = s.get_char(i + 3);
                assert(t[2] == c3 && t[3] == c4);
                if c3 != '0' || c4 != '0' {
                    assert(parse_str_body(t) is None);
                    return None;
                }
                let h1 = s.get_char(i + 4);
                let h2 = s.get_char(i + 5);
                assert(t[4] == h1 && t[5] == h2);
                let v1 = match char_hex(h1) {
                    Some(d) => d,
                    None => {
                        assert(parse_str_body(t) is None);
                        return None;
                    },
                };
                let v2 = match char_hex(h2) {
                    Some(d) => d,
                    None => {
                        assert(parse_str_body(t) is None);
                        return None;
                    },
                };
                let v = 16 * v1 + v2;
                if v >= 32 {
                    assert(parse_str_body(t) is None);
                    return None;
                }
                let u = v as char;
                proof {
                    assert(t.skip(6) =~= s@.skip(i + 6));
                }
                let ghost outpre = out@;
                out.push(u);
                proof {
                    match parse_str_body(s@.skip(i + 6)) {
                        Some(q) => {
                            assert(parse_str_body(t) == Some((seq![u] + q.0, q.1 + 6)));
                            assert(outpre + (seq![u] + q.0) =~= out@ + q.0);
                        },
                        None => {
                            assert(parse_str_body(t) is None);
                        },
                    }
                }
                i = i + 6;
            } else {
                assert(parse_str_body(t) is None);
                return None;
            }
        } else {
            proof {
                assert(t.skip(1) =~= s@.skip(i + 1));
            }
            let ghost outpre = out@;
            out.push(c);
            proof {
                match parse_str_body(s@.skip(i + 1)) {
                    Some(q) => {
                        assert(parse_str_body(t) == Some((seq![c] + q.0, q.1 + 1)));
                        assert(outpre + (seq![c] + q.0) =~= out@ + q.0);
                    },
                    None => {
                        assert(parse_str_body(t) is None);
                    },
                }
            }
            i = i + 1;
        }
    }
}

/// Parse a decimal number beginning at `start`: its value and the count of
/// digits consumed. `None` when no digit stands at `start`, or when the value
/// does not fit a `u32`.
fn parse_number_at(s: &str, start: usize) -> (r: Option<(u32, usize)>)
    requires
        start <= s@.len(),
    ensures
        match r {
            Some(p) => parse_number(s@.skip(start as int)) == Some((p.0 as nat, p.1 as int))
                && start + p.1 <= s@.len(),
            None => parse_number(s@.skip(start as int)) is None || (parse_number(
                s@.skip(start as int),
            ) matches Some(q)
                && q.0 > u32::MAX),
        },
{
    let n = s.unicode_len();
    if start == n {
        assert(s@.skip(start as int).len() == 0);
        return None;
    }
    let c0 = s.get_char(start);
    assert(s@.skip(start as int)[0] == c0);
    if char_digit(c0).is_none() {
        return None;
    }
    let ghost t0 = s@.skip(start as int);
    assert(parse_number(t0) == Some(parse_num_rec(t0, 0)));
    let mut acc: u64 = 0;
    let mut i: usize = start;
    loop
        invariant
            start <= i <= n,
            n == s@.len(),
            acc <= u32::MAX,
            t0 == s@.skip(start as int),
            parse_number(t0) == Some(parse_num_rec(t0, 0)),
            parse_num_rec(t0, 0) == {
                let q = parse_num_rec(s@.skip(i as int), acc as nat);
                (q.0, q.1 + i - start)
            },
        decreases n - i,
    {
        let ghost t = s@.skip(i as int);
        if i == n {
            assert(t.len() == 0);
            assert(parse_num_rec(t, acc as nat) == (acc as nat, 0 as int));
            return Some((acc as u32, i - start));
        }
        let c = s.get_char(i);
        assert(t[0] == c);
        match char_digit(c) {
            None => {
                assert(parse_num_rec(t, acc as nat) == (acc as nat, 0 as int));
                return Some((acc as u32, i - start));
            },
            Some(d) => {
                proof {
                    assert(t.skip(1) =~= s@.skip(i + 1));
                }
                let acc2: u64 = acc * 10 + (d as u64);
                proof {
                    assert(parse_num_rec(t, acc as nat) == {
                        let q = parse_num_rec(s@.skip(i + 1), (acc * 10 + d) as nat);
                        (q.0, q.1 + 1)
                    });
                }
                if acc2 > u32::MAX as u64 {
                    proof {
                        lemma_parse_num_rec_bound(s@.skip(i + 1), acc2 as nat);
                        assert(parse_num_rec(t0, 0).0 > u32::MAX);
                    }
                    return None;
                }
                acc = acc2;
                i = i + 1;
            },
        }
    }
}

impl WorkEvent {
    /// Decode the canonical one-line JSON form: the event for exactly the
    /// texts `to_json` produces, `None` for every other text.
    pub fn from_json(s: &str) -> (r: Option<WorkEvent>)
        ensures
            match r {
                Some(e) => spec_decode(s@) == Some(e@),
                None => spec_decode(s@) is None,
            },
    {
        let pre_a_lit = "{\"type\":\"AppFocused\",\"name\":\"";
        let pre_f_lit = "{\"type\":\"FileSaved\",\"path\":\"";
        let mid_lit = ",\"pid\":";
        let n = s.unicode_len();
        proof {
            assert(s@.skip(0) =~= s@);
        }
        if matches_at(s, 0, pre_a_lit) {
            assert(pre_a().is_prefix_of(s@));
            let la = pre_a_lit.unicode_len();
            assert(la <= n);
            let ghost t = s@.skip(la as int);
            match parse_string_at(s, la) {
                None => {
                    assert(spec_decode(s@) is None);
                    None
                },
                Some((name_chars, used)) => {
                    let k = la + used;
                    let ghost rest = t.skip(used as int);
                    proof {
                        assert(rest =~= s@.skip(k as int));
                    }
                    if matches_at(s, k, mid_lit) {
                        assert(mid_a().is_prefix_of(rest));
                        let m = mid_lit.unicode_len();
                        assert(mid_a().len() <= rest.len());
                        assert(k + m <= n);
                        let ghost rest2 = rest.skip(mid_a().len() as int);
                        proof {
                            assert(rest2 =~= s@.skip((k + m) as int));
                        }
                        match parse_number_at(s, k + m) {
                            None => {
                                assert(spec_decode(s@) is None);
                                None
                            },
                            Some((pid, used2)) => {
                                let e = k + m + used2;
                                let ghost tail = rest2.skip(used2 as int);
                                proof {
                                    assert(tail =~= s@.skip(e as int));
                                }
                                if n - e == 1 && s.get_char(e) == '}' {
                                    proof {
                                        assert(tail.len() == 1);
                                        assert(tail[0] == s@[e as int]);
                                        assert(tail =~= seq!['}']);
                                        assert(spec_decode(s@) == Some(EventModel::AppFocused {
                                            name: name_chars@,
                                            pid,
                                        }));
                                    }
                                    let name = chars_to_string(&name_chars);
                                    Some(WorkEvent::AppFocused { name, pid })
                                } else {
                                    proof {
                                        if tail == seq!['}'] {
                                            assert(tail.len() == 1);
                                            assert(tail[0] == '}');
                                            assert(s@[e as int] == '}');
                                        }
                                        assert(spec_decode(s@) is None);
                                    }
                                    None
                                }
                            },
                        }
                    } else {
                        assert(spec_decode(s@) is None);
                        None
                    }
                },
            }
        } else if matches_at(s, 0, pre_f_lit) {
            assert(pre_f().is_prefix_of(s@));
            assert(!pre_a().is_prefix_of(s@));
            let lf = pre_f_lit.unicode_len();
            assert(lf <= n);
            let ghost t = s@.skip(lf as int);
            match parse_string_at(s, lf) {
                None => {
                    assert(spec_decode(s@) is None);
                    None
                },
                Some((path_chars, used)) => {
                    let k = lf + used;
                    let ghost tail = t.skip(used as int);
                    proof {
                        assert(tail =~= s@.skip(k as int));
                    }
                    if n - k == 1 && s.get_char(k) == '}' {
                        proof {
                            assert(tail.len() == 1);
                            assert(tail[0] == s@[k as int]);
                            assert(tail =~= seq!['}']);
                            assert(spec_decode(s@) == Some(EventModel::FileSaved {
                                path: path_chars@,
                            }));
                        }
                        let path = chars_to_string(&path_chars);
                        Some(WorkEvent::FileSaved { path })
                    } else {
                        proof {
                            if tail == seq!['}'] {
                                assert(tail.len() == 1);
                                assert(tail[0] == '}');
                                assert(s@[k as int] == '}');
                            }
                            assert(spec_decode(s@) is None);
                        }
                        None
                    }
                },
            }
        } else {
            assert(!pre_a().is_prefix_of(s@));
            assert(!pre_f().is_prefix_of(s@));
            None
        }
    }
}

/// Round trip: decoding any encoded event gives that event back, exactly.
pub proof fn lemma_round_trip(e: EventModel)
    ensures
        spec_decode(spec_encode(e)) == Some(e),
{
    reveal_strlit("{\"type\":\"AppFocused\",\"name\":\"");
    reveal_strlit("{\"type\":\"FileSaved\",\"path\":\"");
    reveal_strlit(",\"pid\":");
    match e {
        EventModel::AppFocused { name, pid } => {
            let s = spec_encode(e);
            let tail1 = mid_a() + dec_digits(pid as nat) + seq!['}'];
            assert(s =~= pre_a() + (escape(name) + seq!['"'] + tail1));
            assert(pre_a().is_prefix_of(s)) by {
                assert(pre_a() =~= s.subrange(0, pre_a().len() as int));
            }
            let t = s.skip(pre_a().len() as int);
            assert(t =~= escape(name) + seq!['"'] + tail1);
            lemma_parse_escape(name, tail1);
            let used = escape(name).len() + 1 as int;
            assert(parse_str_body(t) == Some((name, used)));
            let rest = t.skip(used);
            assert(rest =~= tail1);
            assert(mid_a().is_prefix_of(rest)) by {
                assert(mid_a() =~= rest.subrange(0, mid_a().len() as int));
            }
            let rest2 = rest.skip(mid_a().len() as int);
            assert(rest2 =~= dec_digits(pid as nat) + seq!['}']);
            lemma_dec_digits_first(pid as nat);
            assert(rest2[0] == dec_digits(pid as nat)[0]);
            assert(is_digit_char(rest2[0]));
            assert(rest2.len() > 0);
            lemma_parse_digits(pid as nat, seq!['}'], 0);
            assert(!is_digit_char('}'));
            assert(parse_num_rec(seq!['}'], append_val(0, pid as nat)) == (
                append_val(0, pid as nat),
                0 as int,
            ));
            lemma_append_val_zero(pid as nat);
            let ndig = dec_digits(pid as nat).len() as int;
            assert(parse_num_rec(rest2, 0) == (pid as nat, ndig));
            assert(parse_number(rest2) == Some((pid as nat, ndig)));
            assert(rest2.skip(ndig) =~= seq!['}']);
            assert(pid as nat <= u32::MAX);
            assert(spec_decode(s) == Some(EventModel::AppFocused { name, pid }));
        },
        EventModel::FileSaved { path } => {
            let s = spec_encode(e);
            assert(s =~= pre_f() + (escape(path) + seq!['"'] + seq!['}']));
            assert(!pre_a().is_prefix_of(s)) by {
                assert(s[9] == pre_f()[9]);
                assert(pre_f()[9] == 'F');
                assert(pre_a()[9] == 'A');
                if pre_a().is_prefix_of(s) {
                    assert(s.subrange(0, pre_a().len() as int)[9] == pre_a()[9]);
                }
            }
            assert(pre_f().is_prefix_of(s)) by {
                assert(pre_f() =~= s.subrange(0, pre_f().len() as int));
            }
            let t = s.skip(pre_f().len() as int);
            assert(t =~= escape(path) + seq!['"'] + seq!['}']);
            lemma_parse_escape(path, seq!['}']);
            let used = escape(path).len() + 1 as int;
            assert(parse_str_body(t) == Some((path, used)));
            assert(t.skip(used) =~= seq!['}']);
            assert(spec_decode(s) == Some(EventModel::FileSaved { path }));
        },
    }
}

} // verus!

