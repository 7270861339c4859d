//! The payload codec. The wire message is one JSON text frame per event;
//! [`encode`] writes the canonical form, for example
//! `{"event_type":"message","username":"alice","message":"hi"}`, escaping
//! quotes, backslashes and control characters as JSON asks.
//!
//! [`spec_decode`] is the grammar of accepted frames, and it is wider than
//! the canonical form: it admits JSON whitespace, the fields in any order,
//! the standard string escapes (`\n`, `\uXXXX`, ...), unknown extra fields
//! (their values skipped), and `"message":null` for an absent message. A
//! frame is rejected when it is not such an object, omits `event_type` or
//! `username`, repeats a field, names an unknown event, carries an empty
//! username, or sets `message` inconsistently with the event kind.
//! [`lemma_decode_encode`] proves the round trip: every well-formed
//! payload's canonical text decodes back to that payload.

use vstd::prelude::*;
use vstd::string::StrSliceExecFns;
use vstd::string::StringExecFns;

use crate::payload::{ChatError, Payload, PayloadEventType, PayloadView};

verus! {

/// Relies on std's `String::push`: appends the given `char` to the end of
/// this `String`.
pub assume_specification[ String::push ](s: &mut String, c: char)
    ensures
        final(s)@ == old(s)@.push(c),
;

/// Relies on std's `char::from_u32`: yields the character of a valid
/// Unicode scalar value, and nothing for a surrogate or an out-of-range
/// value.
pub assume_specification[ char::from_u32 ](v: u32) -> (r: Option<char>)
    ensures
        match r {
            Some(c) => (v < 0xD800 || (0xE000 <= v && v <= 0x10FFFF)) && c == v as char,
            None => (0xD800 <= v < 0xE000) || v > 0x10FFFF,
        },
;

/// The lowercase hex digit of a value below sixteen.
pub open spec fn hex_digit(n: int) -> char {
    if n == 0 {
        '0'
    } else if n == 1 {
        '1'
    } else if n == 2 {
        '2'
    } else if n == 3 {
        '3'
    } else if n == 4 {
        '4'
    } else if n == 5 {
        '5'
    } else if n == 6 {
        '6'
    } else if n == 7 {
        '7'
    } else if n == 8 {
        '8'
    } else if n == 9 {
        '9'
    } else if n == 10 {
        'a'
    } else if n == 11 {
        'b'
    } else if n == 12 {
        'c'
    } else if n == 13 {
        'd'
    } else if n == 14 {
        'e'
    } else {
        'f'
    }
}

/// The value of a hex digit, upper or lower case; sixteen for any other
/// character.
pub open spec fn hex_val(c: char) -> int {
    if '0' <= c && c <= '9' {
        c as int - '0' as int
    } else if 'a' <= c && c <= 'f' {
        10 + c as int - 'a' as int
    } else if 'A' <= c && c <= 'F' {
        10 + c as int - 'A' as int
    } else {
        16
    }
}

/// How one character is written inside a JSON string: as itself, as one of
/// the named escapes, or as `\u00XX` for the remaining control characters.
pub open spec fn esc_char(c: char) -> Seq<char> {
    if c == '"' {
        seq!['\\', '"']
    } else if c == '\\' {
        seq!['\\', '\\']
    } else if c == '\u{8}' {
        seq!['\\', 'b']
    } else if c == '\t' {
        seq!['\\', 't']
    } else if c == '\n' {
        seq!['\\', 'n']
    } else if c == '\u{c}' {
        seq!['\\', 'f']
    } else if c == '\r' {
        seq!['\\', 'r']
    } else if is_ctl(c) {
        seq!['\\', 'u', '0', '0', hex_digit(c as int / 16), hex_digit(c as int % 16)]
    } else {
        seq![c]
    }
}

/// The escaped form of a whole string.
pub open spec fn spec_escape(s: Seq<char>) -> Seq<char>
    decreases s.len(),
{
    if s.len() == 0 {
        Seq::<char>::empty()
    } else {
        esc_char(s[0]) + spec_escape(s.skip(1))
    }
}

/// The opening of the canonical wire object up to and including the quote
/// that opens the username, for each event kind.
pub open spec fn event_prefix(t: PayloadEventType) -> Seq<char> {
    match t {
        PayloadEventType::Connected => "{\"event_type\":\"connected\",\"username\":\""@,
        PayloadEventType::Disconnected => "{\"event_type\":\"disconnected\",\"username\":\""@,
        PayloadEventType::Message => "{\"event_type\":\"message\",\"username\":\""@,
    }
}

/// What stands between the quote closing the username and the quote
/// opening the message text, in the canonical form.
pub open spec fn msg_sep() -> Seq<char> {
    ",\"message\":\""@
}

/// The exact canonical wire text of a payload.
pub open spec fn spec_encode(p: PayloadView) -> Seq<char> {
    match p.message {
        None => event_prefix(p.event_type) + spec_escape(p.username) + "\"}"@,
        Some(m) => event_prefix(p.event_type) + spec_escape(p.username) + "\""@ + msg_sep()
            + spec_escape(m) + "\"}"@,
    }
}

/// A control character, which JSON requires to be escaped.
pub open spec fn is_ctl(c: char) -> bool {
    '\u{0}' <= c && ' ' > c
}

/// JSON whitespace.
pub open spec fn is_ws(c: char) -> bool {
    c == ' ' || c == '\t' || c == '\n' || c == '\r'
}

/// The first position at or after `i` that holds no whitespace.
pub open spec fn skip_ws(s: Seq<char>, i: int) -> int
    decreases s.len() - i,
{
    if 0 <= i < s.len() && is_ws(s[i]) {
        skip_ws(s, i + 1)
    } else {
        i
    }
}

/// The character a named escape stands for, if the letter names one.
pub open spec fn unescape_named(d: char) -> Option<char> {
    if d == '"' {
        Some('"')
    } else if d == '\\' {
        Some('\\')
    } else if d == '/' {
        Some('/')
    } else if d == 'b' {
        Some('\u{8}')
    } else if d == 'f' {
        Some('\u{c}')
    } else if d == 'n' {
        Some('\n')
    } else if d == 'r' {
        Some('\r')
    } else if d == 't' {
        Some('\t')
    } else {
        None
    }
}

/// Reads a JSON string from position `i` (just after its opening quote) up
/// to its closing quote; yields the unescaped content and the position
/// after that quote. Control characters must be escaped; `\uXXXX` is
/// accepted for every non-surrogate value.
pub open spec fn scan_str(s: Seq<char>, i: int) -> Option<(Seq<char>, int)>
    decreases s.len() - i,
{
    if i < 0 || i >= s.len() {
        None
    } else if s[i] == '"' {
        Some((Seq::<char>::empty(), i + 1))
    } else if s[i] == '\\' {
        if i + 1 >= s.len() {
            None
        } else if s[i + 1] == 'u' {
            if i + 6 <= s.len() && hex_val(s[i + 2]) < 16 && hex_val(s[i + 3]) < 16 && hex_val(
                s[i + 4],
            ) < 16 && hex_val(s[i + 5]) < 16 {
                let v = hex_val(s[i + 2]) * 4096 + hex_val(s[i + 3]) * 256 + hex_val(s[i + 4]) * 16
                    + hex_val(s[i + 5]);
                if 0xD800 <= v < 0xE000 {
                    None
                } else {
                    match scan_str(s, i + 6) {
                        Some(r) => Some((seq![v as char] + r.0, r.1)),
                        None => None,
                    }
                }
            } else {
                None
            }
        } else {
            match unescape_named(s[i + 1]) {
                Some(c) => match scan_str(s, i + 2) {
                    Some(r) => Some((seq![c] + r.0, r.1)),
                    None => None,
                },
                None => None,
            }
        }
    } else if is_ctl(s[i]) {
        None
    } else {
        match scan_str(s, i + 1) {
            Some(r) => Some((seq![s[i]] + r.0, r.1)),
            None => None,
        }
    }
}

/// A character that may stand in an unquoted JSON scalar (a number, or one
/// of the literal words).
pub open spec fn is_lit_char(c: char) -> bool {
    ('0' <= c && c <= '9') || ('a' <= c && c <= 'z') || ('A' <= c && c <= 'Z') || c == '-' || c
        == '+' || c == '.'
}

/// The end of a run of scalar-literal characters starting at `i`.
pub open spec fn scan_lit(s: Seq<char>, i: int) -> int
    decreases s.len() - i,
{
    if 0 <= i < s.len() && is_lit_char(s[i]) {
        scan_lit(s, i + 1)
    } else {
        i
    }
}

/// Skips one JSON value of an unknown field, tolerantly: a string, a
/// nested object or array, or a run of scalar characters. Yields the
/// position after the value.
pub open spec fn skip_value(s: Seq<char>, i: int) -> Option<int>
    decreases s.len() - i, 0int,
{
    if i < 0 || i >= s.len() {
        None
    } else if s[i] == '"' {
        match scan_str(s, i + 1) {
            Some(r) => Some(r.1),
            None => None,
        }
    } else if s[i] == '{' {
        skip_object_rest(s, i + 1)
    } else if s[i] == '[' {
        skip_array_rest(s, i + 1)
    } else if is_lit_char(s[i]) {
        Some(scan_lit(s, i))
    } else {
        None
    }
}

/// Skips the members of a nested object, from just after its `{` or a `,`,
/// through its closing `}`.
pub open spec fn skip_object_rest(s: Seq<char>, i: int) -> Option<int>
    decreases s.len() - i, 1int,
{
    let k = skip_ws(s, i);
    if k < i || k > s.len() {
        None
    } else if k == s.len() {
        None
    } else if s[k] == '}' {
        Some(k + 1)
    } else if s[k] != '"' {
        None
    } else {
        match scan_str(s, k + 1) {
            None => None,
            Some(r) => {
                let c = skip_ws(s, r.1);
                if c >= s.len() || s[c] != ':' {
                    None
                } else {
                    let v = skip_ws(s, c + 1);
                    if v < i || v > s.len() {
                        None
                    } else {
                        match skip_value(s, v) {
                            None => None,
                            Some(e) => {
                                let w = skip_ws(s, e);
                                if w >= s.len() {
                                    None
                                } else if s[w] == '}' {
                                    Some(w + 1)
                                } else if s[w] == ',' && i < w + 1 && w + 1 <= s.len() {
                                    skip_object_rest(s, w + 1)
                                } else {
                                    None
                                }
                            },
                        }
                    }
                }
            },
        }
    }
}

/// Skips the elements of a nested array, from just after its `[` or a `,`,
/// through its closing `]`.
pub open spec fn skip_array_rest(s: Seq<char>, i: int) -> Option<int>
    decreases s.len() - i, 1int,
{
    let k = skip_ws(s, i);
    if k < i || k > s.len() {
        None
    } else if k == s.len() {
        None
    } else if s[k] == ']' {
        Some(k + 1)
    } else {
        match skip_value(s, k) {
            None => None,
            Some(e) => {
                let w = skip_ws(s, e);
                if w >= s.len() {
                    None
                } else if s[w] == ']' {
                    Some(w + 1)
                } else if s[w] == ',' && i < w + 1 && w + 1 <= s.len() {
                    skip_array_rest(s, w + 1)
                } else {
                    None
                }
            },
        }
    }
}

/// The fields gathered while reading the object: raw `event_type` text,
/// username, and the message slot (absent, `null`, or a string).
#[verifier::ext_equal]
pub ghost struct Fields {
    pub event_type: Option<Seq<char>>,
    pub username: Option<Seq<char>>,
    pub message: Option<Option<Seq<char>>>,
}

/// No field seen yet.
pub open spec fn no_fields() -> Fields {
    Fields { event_type: None, username: None, message: None }
}

/// Reads the value of one member, at `v` with whitespace already skipped,
/// into its slot. A repeated known field is rejected; an unknown field's
/// value is skipped.
pub open spec fn apply_member(s: Seq<char>, v: int, key: Seq<char>, f: Fields) -> Option<
    (Fields, int),
> {
    if key == "event_type"@ {
        if f.event_type is Some {
            None
        } else if 0 <= v < s.len() && s[v] == '"' {
            match scan_str(s, v + 1) {
                Some(r) => Some((Fields { event_type: Some(r.0), ..f }, r.1)),
                None => None,
            }
        } else {
            None
        }
    } else if key == "username"@ {
        if f.username is Some {
            None
        } else if 0 <= v < s.len() && s[v] == '"' {
            match scan_str(s, v + 1) {
                Some(r) => Some((Fields { username: Some(r.0), ..f }, r.1)),
                None => None,
            }
        } else {
            None
        }
    } else if key == "message"@ {
        if f.message is Some {
            None
        } else if 0 <= v < s.len() && s[v] == '"' {
            match scan_str(s, v + 1) {
                Some(r) => Some((Fields { message: Some(Some(r.0)), ..f }, r.1)),
                None => None,
            }
        } else if 0 <= v && v + 4 <= s.len() && s[v] == 'n' && s[v + 1] == 'u' && s[v + 2] == 'l'
            && s[v + 3] == 'l' {
            Some((Fields { message: Some(None), ..f }, v + 4))
        } else {
            None
        }
    } else {
        match skip_value(s, v) {
            Some(e) => Some((f, e)),
            None => None,
        }
    }
}

/// Reads one or more `"key": value` members from just after the object's
/// `{` or a `,`, through the closing `}`; yields the gathered fields and
/// the position after the `}`.
pub open spec fn parse_members(s: Seq<char>, i: int, f: Fields) -> Option<(Fields, int)>
    decreases s.len() - i,
{
    let k = skip_ws(s, i);
    if k < i || k >= s.len() || s[k] != '"' {
        None
    } else {
        match scan_str(s, k + 1) {
            None => None,
            Some(r) => {
                let c = skip_ws(s, r.1);
                if c >= s.len() || s[c] != ':' {
                    None
                } else {
                    let v = skip_ws(s, c + 1);
                    match apply_member(s, v, r.0, f) {
                        None => None,
                        Some(fe) => {
                            let w = skip_ws(s, fe.1);
                            if w >= s.len() {
                                None
                            } else if s[w] == '}' {
                                Some((fe.0, w + 1))
                            } else if s[w] == ',' && i < w + 1 && w + 1 <= s.len() {
                                parse_members(s, w + 1, fe.0)
                            } else {
                                None
                            }
                        },
                    }
                }
            },
        }
    }
}

/// The payload the gathered fields spell, if they spell one: a known event
/// name, a non-empty username, and a message exactly for `Message` events
/// (an absent or `null` message counts as none).
pub open spec fn fields_to_payload(f: Fields) -> Option<PayloadView> {
    if f.event_type is None || f.username is None {
        None
    } else {
        let et = f.event_type->Some_0;
        let u = f.username->Some_0;
        let m: Option<Seq<char>> = match f.message {
            None => None,
            Some(mm) => mm,
        };
        if u.len() == 0 {
            None
        } else if et == "connected"@ && m is None {
            Some(PayloadView { event_type: PayloadEventType::Connected, username: u, message: m })
        } else if et == "disconnected"@ && m is None {
            Some(
                PayloadView {
                    event_type: PayloadEventType::Disconnected,
                    username: u,
                    message: m,
                },
            )
        } else if et == "message"@ && m is Some {
            Some(PayloadView { event_type: PayloadEventType::Message, username: u, message: m })
        } else {
            None
        }
    }
}

/// The grammar of the wire text: which payload, if any, a text frame
/// spells as a JSON object.
pub open spec fn spec_decode(s: Seq<char>) -> Option<PayloadView> {
    let i = skip_ws(s, 0);
    if i >= s.len() || s[i] != '{' {
        None
    } else {
        let k = skip_ws(s, i + 1);
        let parsed = if i < k < s.len() && s[k] == '}' {
            Some((no_fields(), k + 1))
        } else {
            parse_members(s, i + 1, no_fields())
        };
        match parsed {
            None => None,
            Some(fe) => {
                if skip_ws(s, fe.1) != s.len() {
                    None
                } else {
                    fields_to_payload(fe.0)
                }
            },
        }
    }
}

/// Whatever decodes is well formed.
pub proof fn lemma_decode_wf(s: Seq<char>)
    requires
        spec_decode(s) is Some,
    ensures
        spec_decode(s)->Some_0.wf(),
{
}

/// Escaping distributes over appending one character.
proof fn lemma_escape_push(a: Seq<char>, c: char)
    ensures
        spec_escape(a.push(c)) == spec_escape(a) + esc_char(c),
    decreases a.len(),
{
    if a.len() == 0 {
        assert(a.push(c)[0] == c);
        assert(a.push(c).skip(1) =~= Seq::<char>::empty());
        assert(spec_escape(a.push(c)) == esc_char(c) + spec_escape(Seq::<char>::empty()));
        assert(esc_char(c) + Seq::<char>::empty() =~= esc_char(c));
        assert(spec_escape(a) + esc_char(c) =~= esc_char(c));
    } else {
        lemma_escape_push(a.skip(1), c);
        assert(a.push(c)[0] == a[0]);
        assert(a.push(c).skip(1) =~= a.skip(1).push(c));
        assert((esc_char(a[0]) + spec_escape(a.skip(1))) + esc_char(c) =~= esc_char(a[0]) + (
        spec_escape(a.skip(1)) + esc_char(c)));
    }
}

/// A hex digit reads back as its value.
proof fn lemma_hex_digit_val(n: int)
    requires
        0 <= n < 16,
    ensures
        hex_val(hex_digit(n)) == n,
{
}

/// Scanning the escaped form of `u` followed by a quote succeeds and
/// yields exactly `u`.
proof fn lemma_scan_complete(s: Seq<char>, i: int, u: Seq<char>)
    requires
        0 <= i <= s.len(),
        i + spec_escape(u).len() + 1 <= s.len(),
        s.subrange(i, i + spec_escape(u).len() + 1) =~= spec_escape(u) + seq!['"'],
    ensures
        scan_str(s, i) == Some((u, i + spec_escape(u).len() + 1)),
    decreases u.len(),
{
    let ell = spec_escape(u).len() as int;
    let big = s.subrange(i, i + ell + 1);
    assert(forall|q: int| 0 <= q < ell + 1 ==> s[i + q] == #[trigger] big[q]);
    if u.len() == 0 {
        assert(big[0] == (spec_escape(u) + seq!['"'])[0]);
        assert(s[i] == '"');
        assert(scan_str(s, i) == Some((Seq::<char>::empty(), i + 1)));
        assert(u =~= Seq::<char>::empty());
    } else {
        let c = u[0];
        let u2 = u.skip(1);
        let e2 = spec_escape(u2).len() as int;
        assert(u =~= seq![c] + u2);
        assert(spec_escape(u) == esc_char(c) + spec_escape(u2));
        let w = esc_char(c).len() as int;
        assert forall|q: int| 0 <= q < e2 + 1 implies s[i + w + q] == (spec_escape(u2)
            + seq!['"'])[q] by {
            assert(s[i + w + q] == big[w + q]);
            assert(big[w + q] == (spec_escape(u) + seq!['"'])[w + q]);
        }
        assert(s.subrange(i + w, i + w + e2 + 1) =~= spec_escape(u2) + seq!['"']);
        lemma_scan_complete(s, i + w, u2);
        if c == '"' || c == '\\' {
            assert(s[i] == big[0] && s[i + 1] == big[1]);
            assert(s[i] == '\\' && s[i + 1] == c);
            assert(unescape_named(c) == Some(c));
            assert(seq![s[i + 1]] + u2 =~= u);
        } else if c == '\u{8}' || c == '\t' || c == '\n' || c == '\u{c}' || c == '\r' {
            assert(s[i] == big[0] && s[i + 1] == big[1]);
            assert(s[i] == '\\');
            assert(unescape_named(s[i + 1]) == Some(c));
            assert(seq![c] + u2 =~= u);
        } else if is_ctl(c) {
            assert(s[i] == big[0] && s[i + 1] == big[1] && s[i + 2] == big[2] && s[i + 3] == big[3]
                && s[i + 4] == big[4] && s[i + 5] == big[5]);
            assert(s[i] == '\\' && s[i + 1] == 'u' && s[i + 2] == '0' && s[i + 3] == '0');
            assert(s[i + 4] == hex_digit(c as int / 16) && s[i + 5] == hex_digit(c as int % 16));
            assert(0 <= (c as int) < 0x20);
            assert(0 <= (c as int) / 16 < 16);
            assert(0 <= (c as int) % 16 < 16);
            lemma_hex_digit_val(c as int / 16);
            lemma_hex_digit_val(c as int % 16);
            assert(hex_val(s[i + 2]) == 0 && hex_val(s[i + 3]) == 0);
            let v = hex_val(s[i + 2]) * 4096 + hex_val(s[i + 3]) * 256 + hex_val(s[i + 4]) * 16
                + hex_val(s[i + 5]);
            assert(v == (c as int / 16) * 16 + c as int % 16);
            assert(v == c as int);
            assert(v as char == c);
            assert(seq![v as char] + u2 =~= u);
        } else {
            assert(s[i] == big[0]);
            assert(s[i] == c);
            assert(seq![s[i]] + u2 =~= u);
        }
    }
}

/// The field names and event names stand in the wire text as themselves.
proof fn lemma_escape_literals()
    ensures
        spec_escape("event_type"@) == "event_type"@,
        spec_escape("username"@) == "username"@,
        spec_escape("message"@) == "message"@,
        spec_escape("connected"@) == "connected"@,
        spec_escape("disconnected"@) == "disconnected"@,
{
    reveal_strlit("event_type");
    reveal_strlit("username");
    reveal_strlit("message");
    reveal_strlit("connected");
    reveal_strlit("disconnected");
    reveal_with_fuel(spec_escape, 15);
    assert(spec_escape("event_type"@) =~= "event_type"@);
    assert(spec_escape("username"@) =~= "username"@);
    assert(spec_escape("message"@) =~= "message"@);
    assert(spec_escape("connected"@) =~= "connected"@);
    assert(spec_escape("disconnected"@) =~= "disconnected"@);
}

/// Decoding is a right inverse of encoding: the canonical wire text of a
/// well-formed payload decodes back to that payload.
#[verifier::rlimit(100)]
pub proof fn lemma_decode_encode(pv: PayloadView)
    requires
        pv.wf(),
    ensures
        spec_decode(spec_encode(pv)) == Some(pv),
{
    reveal_strlit("{\"event_type\":\"connected\",\"username\":\"");
    reveal_strlit("{\"event_type\":\"disconnected\",\"username\":\"");
    reveal_strlit("{\"event_type\":\"message\",\"username\":\"");
    reveal_strlit(",\"message\":\"");
    reveal_strlit("\"");
    reveal_strlit("\"}");
    reveal_strlit("event_type");
    reveal_strlit("username");
    reveal_strlit("message");
    reveal_strlit("connected");
    reveal_strlit("disconnected");
    lemma_escape_literals();
    let s = spec_encode(pv);
    let p = event_prefix(pv.event_type);
    let name = match pv.event_type {
        PayloadEventType::Connected => "connected"@,
        PayloadEventType::Disconnected => "disconnected"@,
        PayloadEventType::Message => "message"@,
    };
    let n = name.len() as int;
    let ll = p.len() as int;
    assert(ll == 29 + n);
    let eu = spec_escape(pv.username).len() as int;
    // the prefix characters, one region at a time
    assert(forall|q: int| 0 <= q < ll ==> s[q] == #[trigger] p[q]);
    assert(s[0] == '{' && s[1] == '"');
    assert(!is_ws(s[0]) && !is_ws(s[1]));
    assert(skip_ws(s, 0) == 0);
    assert(skip_ws(s, 1) == 1);
    // key "event_type" at 2..12, closed by the quote at 12
    assert forall|q: int| 0 <= q < 11 implies s[2 + q] == ("event_type"@ + seq!['"'])[q] by {
        assert(s[2 + q] == p[2 + q]);
    }
    assert(s.subrange(2, 13) =~= spec_escape("event_type"@) + seq!['"']);
    lemma_scan_complete(s, 2, "event_type"@);
    assert(s[13] == ':' && !is_ws(s[13]));
    assert(skip_ws(s, 13) == 13);
    assert(s[14] == '"' && !is_ws(s[14]));
    assert(skip_ws(s, 14) == 14);
    // the event name as the value, closed by the quote at 15 + n
    assert forall|q: int| 0 <= q < n + 1 implies s[15 + q] == (name + seq!['"'])[q] by {
        assert(s[15 + q] == p[15 + q]);
    }
    assert(spec_escape(name) == name);
    assert(s.subrange(15, 15 + n + 1) =~= spec_escape(name) + seq!['"']);
    lemma_scan_complete(s, 15, name);
    let f1 = Fields { event_type: Some(name), username: None, message: None };
    assert(apply_member(s, 14, "event_type"@, no_fields()) == Some((f1, 16 + n)));
    assert(s[16 + n] == ',' && !is_ws(s[16 + n]));
    assert(skip_ws(s, 16 + n) == 16 + n);
    // key "username" at 18+n..26+n, closed by the quote at 26+n
    assert(s[17 + n] == '"' && !is_ws(s[17 + n]));
    assert(skip_ws(s, 17 + n) == 17 + n);
    assert forall|q: int| 0 <= q < 9 implies s[18 + n + q] == ("username"@ + seq!['"'])[q] by {
        assert(s[18 + n + q] == p[18 + n + q]);
    }
    assert(s.subrange(18 + n, 27 + n) =~= spec_escape("username"@) + seq!['"']);
    lemma_scan_complete(s, 18 + n, "username"@);
    assert(s[27 + n] == ':' && !is_ws(s[27 + n]));
    assert(skip_ws(s, 27 + n) == 27 + n);
    assert(s[28 + n] == '"' && !is_ws(s[28 + n]));
    assert(skip_ws(s, 28 + n) == 28 + n);
    assert("event_type"@ != "username"@ && "event_type"@ != "message"@ && "username"@
        != "message"@);
    match pv.message {
        None => {
            assert(s =~= p + spec_escape(pv.username) + "\"}"@);
            assert forall|q: int| 0 <= q < eu + 1 implies s[ll + q] == (spec_escape(pv.username)
                + seq!['"'])[q] by {}
            assert(s.subrange(ll, ll + eu + 1) =~= spec_escape(pv.username) + seq!['"']);
            lemma_scan_complete(s, ll, pv.username);
            let f2 = Fields { event_type: Some(name), username: Some(pv.username), message: None };
            assert(apply_member(s, 28 + n, "username"@, f1) == Some((f2, ll + eu + 1)));
            let qq = ll + eu + 1;
            assert(s[qq] == '}' && !is_ws(s[qq]));
            assert(skip_ws(s, qq) == qq);
            assert(parse_members(s, 17 + n, f1) == Some((f2, qq + 1)));
            assert(parse_members(s, 1, no_fields()) == Some((f2, qq + 1)));
            assert(qq + 1 == s.len());
            assert(skip_ws(s, s.len() as int) == s.len());
            assert(!(pv.event_type is Message));
            assert(fields_to_payload(f2) == Some(PayloadView {
                event_type: pv.event_type,
                username: pv.username,
                message: None,
            }));
            assert(PayloadView {
                event_type: pv.event_type,
                username: pv.username,
                message: None,
            } =~= pv);
        },
        Some(m) => {
            let em = spec_escape(m).len() as int;
            assert(s =~= p + spec_escape(pv.username) + "\""@ + msg_sep() + spec_escape(m)
                + "\"}"@);
            assert forall|q: int| 0 <= q < eu + 1 implies s[ll + q] == (spec_escape(pv.username)
                + seq!['"'])[q] by {}
            assert(s.subrange(ll, ll + eu + 1) =~= spec_escape(pv.username) + seq!['"']);
            lemma_scan_complete(s, ll, pv.username);
            let f2 = Fields { event_type: Some(name), username: Some(pv.username), message: None };
            assert(apply_member(s, 28 + n, "username"@, f1) == Some((f2, ll + eu + 1)));
            let qq = ll + eu + 1;
            // the separator `,"message":"` spans qq..qq+12
            assert(forall|q: int| 0 <= q < 12 ==> s[qq + q] == #[trigger] msg_sep()[q]);
            assert(s[qq] == ',' && !is_ws(s[qq]));
            assert(skip_ws(s, qq) == qq);
            assert(s[qq + 1] == '"' && !is_ws(s[qq + 1]));
            assert(skip_ws(s, qq + 1) == qq + 1);
            assert forall|q: int| 0 <= q < 8 implies s[qq + 2 + q] == ("message"@
                + seq!['"'])[q] by {
                assert(s[qq + 2 + q] == msg_sep()[2 + q]);
            }
            assert(s.subrange(qq + 2, qq + 10) =~= spec_escape("message"@) + seq!['"']);
            lemma_scan_complete(s, qq + 2, "message"@);
            assert(s[qq + 10] == ':' && !is_ws(s[qq + 10]));
            assert(skip_ws(s, qq + 10) == qq + 10);
            assert(s[qq + 11] == '"' && !is_ws(s[qq + 11]));
            assert(skip_ws(s, qq + 11) == qq + 11);
            assert forall|q: int| 0 <= q < em + 1 implies s[qq + 12 + q] == (spec_escape(m)
                + seq!['"'])[q] by {}
            assert(s.subrange(qq + 12, qq + 12 + em + 1) =~= spec_escape(m) + seq!['"']);
            lemma_scan_complete(s, qq + 12, m);
            let f3 = Fields {
                event_type: Some(name),
                username: Some(pv.username),
                message: Some(Some(m)),
            };
            let rr = qq + 12 + em + 1;
            assert(apply_member(s, qq + 11, "message"@, f2) == Some((f3, rr)));
            assert(s[rr] == '}' && !is_ws(s[rr]));
            assert(skip_ws(s, rr) == rr);
            assert(parse_members(s, qq + 1, f2) == Some((f3, rr + 1)));
            assert(parse_members(s, 17 + n, f1) == Some((f3, rr + 1)));
            assert(parse_members(s, 1, no_fields()) == Some((f3, rr + 1)));
            assert(rr + 1 == s.len());
            assert(skip_ws(s, s.len() as int) == s.len());
            assert(pv.event_type is Message);
            assert(fields_to_payload(f3) == Some(PayloadView {
                event_type: pv.event_type,
                username: pv.username,
                message: Some(m),
            }));
            assert(PayloadView {
                event_type: pv.event_type,
                username: pv.username,
                message: Some(m),
            } =~= pv);
        },
    }
}

/// The events of the history, encoded and joined with commas.
pub open spec fn spec_history_items(h: Seq<PayloadView>) -> Seq<char>
    decreases h.len(),
{
    if h.len() == 0 {
        Seq::<char>::empty()
    } else if h.len() == 1 {
        spec_encode(h[0])
    } else {
        spec_history_items(h.drop_last()) + ","@ + spec_encode(h.last())
    }
}

/// The text of the history query response: a JSON array of the logged
/// events, oldest first.
pub open spec fn spec_history_json(h: Seq<PayloadView>) -> Seq<char> {
    "["@ + spec_history_items(h) + "]"@
}

/// The lowercase hex digit of a value below sixteen.
fn hex_digit_exec(n: u32) -> (c: char)
    requires
        n < 16,
    ensures
        c == hex_digit(n as int),
{
    if n == 0 {
        '0'
    } else if n == 1 {
        '1'
    } else if n == 2 {
        '2'
    } else if n == 3 {
        '3'
    } else if n == 4 {
        '4'
    } else if n == 5 {
        '5'
    } else if n == 6 {
        '6'
    } else if n == 7 {
        '7'
    } else if n == 8 {
        '8'
    } else if n == 9 {
        '9'
    } else if n == 10 {
        'a'
    } else if n == 11 {
        'b'
    } else if n == 12 {
        'c'
    } else if n == 13 {
        'd'
    } else if n == 14 {
        'e'
    } else {
        'f'
    }
}

/// Appends the escaped form of `piece` to `out`.
fn append_escaped(out: &mut String, piece: &str)
    ensures
        final(out)@ == old(out)@ + spec_escape(piece@),
{
    let ghost init = out@;
    let n = piece.unicode_len();
    let mut i: usize = 0;
    while i < n
        invariant
            n == piece@.len(),
            i <= n,
            out@ == init + spec_escape(piece@.take(i as int)),
        decreases n - i,
    {
        let c = piece.get_char(i);
        proof {
            lemma_escape_push(piece@.take(i as int), c);
            assert(piece@.take(i as int + 1) =~= piece@.take(i as int).push(c));
        }
        if c == '"' || c == '\\' {
            out.push('\\');
            out.push(c);
        } else if c == '\u{8}' {
            out.push('\\');
            out.push('b');
        } else if c == '\t' {
            out.push('\\');
            out.push('t');
        } else if c == '\n' {
            out.push('\\');
            out.push('n');
        } else if c == '\u{c}' {
            out.push('\\');
            out.push('f');
        } else if c == '\r' {
            out.push('\\');
            out.push('r');
        } else if ' ' > c {
            out.push('\\');
            out.push('u');
            out.push('0');
            out.push('0');
            out.push(hex_digit_exec((c as u32) / 16));
            out.push(hex_digit_exec((c as u32) % 16));
        } else {
            out.push(c);
        }
        proof {
            assert(out@ =~= init + spec_escape(piece@.take(i as int + 1)));
        }
        i = i + 1;
    }
    proof {
        assert(piece@.take(n as int) =~= piece@);
    }
}

/// Writes a payload as its canonical wire text.
pub fn encode(p: &Payload) -> (r: String)
    ensures
        r@ == spec_encode(p@),
{
    let mut out = String::new();
    match p.event_type {
        PayloadEventType::Connected => out.append("{\"event_type\":\"connected\",\"username\":\""),
        PayloadEventType::Disconnected => out.append(
            "{\"event_type\":\"disconnected\",\"username\":\"",
        ),
        PayloadEventType::Message => out.append("{\"event_type\":\"message\",\"username\":\""),
    }
    proof {
        assert(out@ =~= event_prefix(p.event_type));
    }
    append_escaped(&mut out, p.username.as_str());
    match &p.message {
        None => {
            out.append("\"}");
            proof {
                assert(out@ =~= spec_encode(p@));
            }
        },
        Some(m) => {
            out.append("\"");
            out.append(",\"message\":\"");
            append_escaped(&mut out, m.as_str());
            out.append("\"}");
            proof {
                assert(out@ =~= spec_encode(p@));
            }
        },
    }
    out
}

/// The characters of a string slice, one by one.
fn chars_of(s: &str) -> (v: Vec<char>)
    ensures
        v@ == s@,
{
    let n = s.unicode_len();
    let mut v: Vec<char> = Vec::new();
    let mut i: usize = 0;
    while i < n
        invariant
            n == s@.len(),
            i <= n,
            v@ == s@.take(i as int),
        decreases n - i,
    {
        let c = s.get_char(i);
        v.push(c);
        proof {
            assert(s@.take(i as int + 1) =~= s@.take(i as int).push(c));
        }
        i = i + 1;
    }
    proof {
        assert(s@.take(n as int) =~= s@);
    }
    v
}

/// A string built back from its characters.
fn string_of(v: &Vec<char>) -> (s: String)
    ensures
        s@ == v@,
{
    let mut s = String::new();
    let mut i: usize = 0;
    while i < v.len()
        invariant
            i <= v@.len(),
            s@ == v@.take(i as int),
        decreases v@.len() - i,
    {
        let c = v[i];
        s.push(c);
        proof {
            assert(v@.take(i as int + 1) =~= v@.take(i as int).push(c));
        }
        i = i + 1;
    }
    proof {
        assert(v@.take(v@.len() as int) =~= v@);
    }
    s
}

/// Whether the characters spell exactly `lit`.
fn chars_eq_lit(v: &Vec<char>, lit: &str) -> (b: bool)
    ensures
        b == (v@ == lit@),
{
    let n = lit.unicode_len();
    if v.len() != n {
        return false;
    }
    let mut k: usize = 0;
    while k < n
        invariant
            n == lit@.len(),
            n == v@.len(),
            k <= n,
            forall|q: int| 0 <= q < k ==> v@[q] == lit@[q],
        decreases n - k,
    {
        let c = v[k];
        if c != lit.get_char(k) {
            return false;
        }
        k = k + 1;
    }
    proof {
        assert(v@ =~= lit@);
    }
    true
}

/// The value of a hex digit; sixteen for any other character.
fn hex_val_exec(c: char) -> (r: u32)
    ensures
        r as int == hex_val(c),
{
    if '0' <= c && c <= '9' {
        (c as u32) - ('0' as u32)
    } else if 'a' <= c && c <= 'f' {
        10 + (c as u32) - ('a' as u32)
    } else if 'A' <= c && c <= 'F' {
        10 + (c as u32) - ('A' as u32)
    } else {
        16
    }
}

/// The character a named escape stands for, if the letter names one.
fn unescape_named_exec(d: char) -> (r: Option<char>)
    ensures
        r == unescape_named(d),
{
    if d == '"' {
        Some('"')
    } else if d == '\\' {
        Some('\\')
    } else if d == '/' {
        Some('/')
    } else if d == 'b' {
        Some('\u{8}')
    } else if d == 'f' {
        Some('\u{c}')
    } else if d == 'n' {
        Some('\n')
    } else if d == 'r' {
        Some('\r')
    } else if d == 't' {
        Some('\t')
    } else {
        None
    }
}

/// The first position at or after `i` that holds no whitespace.
fn skip_ws_exec(v: &Vec<char>, i: usize) -> (r: usize)
    requires
        i <= v@.len(),
    ensures
        r as int == skip_ws(v@, i as int),
        i <= r <= v@.len(),
{
    let mut j = i;
    while j < v.len() && (v[j] == ' ' || v[j] == '\t' || v[j] == '\n' || v[j] == '\r')
        invariant
            i <= j <= v@.len(),
            skip_ws(v@, i as int) == skip_ws(v@, j as int),
        decreases v@.len() - j,
    {
        j = j + 1;
    }
    proof {
        assert(skip_ws(v@, j as int) == j);
    }
    j
}

/// Whether the current state of a scan, at `j` with `acc` read so far,
/// determines the scan from `i` as stated.
spec fn scan_rel(s: Seq<char>, i: int, acc: Seq<char>, j: int) -> bool {
    match scan_str(s, j) {
        Some(r) => scan_str(s, i) == Some((acc + r.0, r.1)),
        None => scan_str(s, i) is None,
    }
}

/// Reads a JSON string from `start` (just after its opening quote) to its
/// closing quote.
fn scan_exec(v: &Vec<char>, start: usize) -> (r: Option<(Vec<char>, usize)>)
    requires
        start <= v@.len(),
    ensures
        match r {
            Some(p) => scan_str(v@, start as int) == Some((p.0@, p.1 as int)) && start < p.1
                <= v@.len(),
            None => scan_str(v@, start as int) is None,
        },
{
    let ghost s = v@;
    let mut j = start;
    let mut out: Vec<char> = Vec::new();
    proof {
        if scan_str(s, start as int) is Some {
            let r0 = scan_str(s, start as int)->Some_0;
            assert(out@ + r0.0 =~= r0.0);
        }
    }
    loop
        invariant
            start <= j <= v@.len(),
            s == v@,
            scan_rel(s, start as int, out@, j as int),
        decreases v@.len() - j,
    {
        if j == v.len() {
            assert(scan_str(s, j as int) is None);
            return None;
        }
        let c = v[j];
        if c == '"' {
            proof {
                assert(scan_str(s, j as int) == Some((Seq::<char>::empty(), j + 1)));
                if scan_str(s, start as int) is Some {
                    let r0 = scan_str(s, start as int)->Some_0;
                    assert(out@ + Seq::<char>::empty() =~= out@);
                }
            }
            return Some((out, j + 1));
        } else if c == '\\' {
            if j + 1 == v.len() {
                assert(scan_str(s, j as int) is None);
                return None;
            }
            let d = v[j + 1];
            if d == 'u' {
                if v.len() - j < 6 {
                    assert(scan_str(s, j as int) is None);
                    return None;
                }
                let h1 = hex_val_exec(v[j + 2]);
                let h2 = hex_val_exec(v[j + 3]);
                let h3 = hex_val_exec(v[j + 4]);
                let h4 = hex_val_exec(v[j + 5]);
                if h1 >= 16 || h2 >= 16 || h3 >= 16 || h4 >= 16 {
                    assert(scan_str(s, j as int) is None);
                    return None;
                }
                let val: u32 = h1 * 4096 + h2 * 256 + h3 * 16 + h4;
                if 0xD800 <= val && val < 0xE000 {
                    assert(scan_str(s, j as int) is None);
                    return None;
                }
                let c2 = match char::from_u32(val) {
                    Some(x) => x,
                    None => {
                        proof {
                            assert(false);
                        }
                        return None;
                    },
                };
                proof {
                    assert(val <= 0xFFFF);
                    assert(val as int == hex_val(s[j + 2]) * 4096 + hex_val(s[j + 3]) * 256
                        + hex_val(s[j + 4]) * 16 + hex_val(s[j + 5]));
                    assert(c2 == val as char);
                    if scan_str(s, j as int + 6) is Some {
                        let r2 = scan_str(s, j as int + 6)->Some_0;
                        assert(scan_str(s, j as int) == Some((seq![c2] + r2.0, r2.1)));
                        assert(out@ + (seq![c2] + r2.0) =~= out@.push(c2) + r2.0);
                    } else {
                        assert(scan_str(s, j as int) is None);
                    }
                }
                out.push(c2);
                j = j + 6;
            } else {
                match unescape_named_exec(d) {
                    Some(c2) => {
                        proof {
                            if scan_str(s, j as int + 2) is Some {
                                let r2 = scan_str(s, j as int + 2)->Some_0;
                                assert(scan_str(s, j as int) == Some((seq![c2] + r2.0, r2.1)));
                                assert(out@ + (seq![c2] + r2.0) =~= out@.push(c2) + r2.0);
                            } else {
                                assert(scan_str(s, j as int) is None);
                            }
                        }
                        out.push(c2);
                        j = j + 2;
                    },
                    None => {
                        assert(scan_str(s, j as int) is None);
                        return None;
                    },
                }
            }
        } else if '\u{0}' <= c && ' ' > c {
            assert(scan_str(s, j as int) is None);
            return None;
        } else {
            proof {
                if scan_str(s, j as int + 1) is Some {
                    let r2 = scan_str(s, j as int + 1)->Some_0;
                    assert(scan_str(s, j as int) == Some((seq![c] + r2.0, r2.1)));
                    assert(out@ + (seq![c] + r2.0) =~= out@.push(c) + r2.0);
                } else {
                    assert(scan_str(s, j as int) is None);
                }
            }
            out.push(c);
            j = j + 1;
        }
    }
}

/// The end of a run of scalar-literal characters starting at `i`.
fn scan_lit_exec(v: &Vec<char>, i: usize) -> (r: usize)
    requires
        i <= v@.len(),
    ensures
        r as int == scan_lit(v@, i as int),
        i <= r <= v@.len(),
    decreases v@.len() - i,
{
    if i < v.len() {
        let c = v[i];
        if ('0' <= c && c <= '9') || ('a' <= c && c <= 'z') || ('A' <= c && c <= 'Z') || c == '-'
            || c == '+' || c == '.' {
            return scan_lit_exec(v, i + 1);
        }
    }
    i
}

/// Skips one JSON value of an unknown field, tolerantly.
fn skip_value_exec(v: &Vec<char>, i: usize) -> (r: Option<usize>)
    requires
        i <= v@.len(),
    ensures
        match r {
            Some(e) => skip_value(v@, i as int) == Some(e as int) && i < e <= v@.len(),
            None => skip_value(v@, i as int) is None,
        },
    decreases v@.len() - i, 0int,
{
    if i == v.len() {
        return None;
    }
    let c = v[i];
    if c == '"' {
        match scan_exec(v, i + 1) {
            Some(p) => Some(p.1),
            None => None,
        }
    } else if c == '{' {
        skip_object_rest_exec(v, i + 1)
    } else if c == '[' {
        skip_array_rest_exec(v, i + 1)
    } else if ('0' <= c && c <= '9') || ('a' <= c && c <= 'z') || ('A' <= c && c <= 'Z') || c == '-'
        || c == '+' || c == '.' {
        let e = scan_lit_exec(v, i + 1);
        proof {
            assert(scan_lit(v@, i as int) == scan_lit(v@, i as int + 1));
        }
        Some(e)
    } else {
        None
    }
}

/// Skips the members of a nested object, from just after its `{` or a `,`.
fn skip_object_rest_exec(v: &Vec<char>, i: usize) -> (r: Option<usize>)
    requires
        i <= v@.len(),
    ensures
        match r {
            Some(e) => skip_object_rest(v@, i as int) == Some(e as int) && i < e <= v@.len(),
            None => skip_object_rest(v@, i as int) is None,
        },
    decreases v@.len() - i, 1int,
{
    let k = skip_ws_exec(v, i);
    if k == v.len() {
        return None;
    }
    let c = v[k];
    if c == '}' {
        return Some(k + 1);
    }
    if c != '"' {
        return None;
    }
    match scan_exec(v, k + 1) {
        None => None,
        Some((_, j)) => {
            let c2 = skip_ws_exec(v, j);
            if c2 == v.len() {
                return None;
            }
            let cc = v[c2];
            if cc != ':' {
                return None;
            }
            let vp = skip_ws_exec(v, c2 + 1);
            match skip_value_exec(v, vp) {
                None => None,
                Some(e) => {
                    let w = skip_ws_exec(v, e);
                    if w == v.len() {
                        return None;
                    }
                    let cw = v[w];
                    if cw == '}' {
                        Some(w + 1)
                    } else if cw == ',' {
                        skip_object_rest_exec(v, w + 1)
                    } else {
                        None
                    }
                },
            }
        },
    }
}

/// Skips the elements of a nested array, from just after its `[` or a `,`.
fn skip_array_rest_exec(v: &Vec<char>, i: usize) -> (r: Option<usize>)
    requires
        i <= v@.len(),
    ensures
        match r {
            Some(e) => skip_array_rest(v@, i as int) == Some(e as int) && i < e <= v@.len(),
            None => skip_array_rest(v@, i as int) is None,
        },
    decreases v@.len() - i, 1int,
{
    let k = skip_ws_exec(v, i);
    if k == v.len() {
        return None;
    }
    let c = v[k];
    if c == ']' {
        return Some(k + 1);
    }
    match skip_value_exec(v, k) {
        None => None,
        Some(e) => {
            let w = skip_ws_exec(v, e);
            if w == v.len() {
                return None;
            }
            let cw = v[w];
            if cw == ']' {
                Some(w + 1)
            } else if cw == ',' {
                skip_array_rest_exec(v, w + 1)
            } else {
                None
            }
        },
    }
}

/// The fields gathered while reading the object, as owned character
/// buffers.
struct FieldsBuf {
    event_type: Option<Vec<char>>,
    username: Option<Vec<char>>,
    message: Option<Option<Vec<char>>>,
}

impl View for FieldsBuf {
    type V = Fields;

    closed spec fn view(&self) -> Fields {
        Fields {
            event_type: match self.event_type {
                Some(ref x) => Some(x@),
                None => None,
            },
            username: match self.username {
                Some(ref x) => Some(x@),
                None => None,
            },
            message: match self.message {
                Some(Some(ref x)) => Some(Some(x@)),
                Some(None) => Some(None),
                None => None,
            },
        }
    }
}

/// Reads the value of one member into its slot.
fn apply_member_exec(v: &Vec<char>, vp: usize, key: Vec<char>, f: FieldsBuf) -> (r: Option<
    (FieldsBuf, usize),
>)
    requires
        vp <= v@.len(),
    ensures
        match r {
            Some(p) => apply_member(v@, vp as int, key@, f@) == Some((p.0@, p.1 as int)) && vp < p.1
                <= v@.len(),
            None => apply_member(v@, vp as int, key@, f@) is None,
        },
{
    if chars_eq_lit(&key, "event_type") {
        if f.event_type.is_some() {
            return None;
        }
        if vp < v.len() {
            let c = v[vp];
            if c == '"' {
                return match scan_exec(v, vp + 1) {
                    Some((u, e)) => Some((FieldsBuf { event_type: Some(u), ..f }, e)),
                    None => None,
                };
            }
        }
        None
    } else if chars_eq_lit(&key, "username") {
        if f.username.is_some() {
            return None;
        }
        if vp < v.len() {
            let c = v[vp];
            if c == '"' {
                return match scan_exec(v, vp + 1) {
                    Some((u, e)) => Some((FieldsBuf { username: Some(u), ..f }, e)),
                    None => None,
                };
            }
        }
        None
    } else if chars_eq_lit(&key, "message") {
        if f.message.is_some() {
            return None;
        }
        if vp < v.len() {
            let c = v[vp];
            if c == '"' {
                return match scan_exec(v, vp + 1) {
                    Some((u, e)) => Some((FieldsBuf { message: Some(Some(u)), ..f }, e)),
                    None => None,
                };
            }
            if v.len() - vp >= 4 {
                let c2 = v[vp + 1];
                let c3 = v[vp + 2];
                let c4 = v[vp + 3];
                if c == 'n' && c2 == 'u' && c3 == 'l' && c4 == 'l' {
                    return Some((FieldsBuf { message: Some(None), ..f }, vp + 4));
                }
            }
        }
        None
    } else {
        match skip_value_exec(v, vp) {
            Some(e) => Some((f, e)),
            None => None,
        }
    }
}

/// Reads one or more members from just after the object's `{` or a `,`,
/// through the closing `}`.
fn parse_members_exec(v: &Vec<char>, i: usize, f: FieldsBuf) -> (r: Option<(FieldsBuf, usize)>)
    requires
        i <= v@.len(),
    ensures
        match r {
            Some(p) => parse_members(v@, i as int, f@) == Some((p.0@, p.1 as int)) && p.1
                <= v@.len(),
            None => parse_members(v@, i as int, f@) is None,
        },
    decreases v@.len() - i,
{
    let k = skip_ws_exec(v, i);
    if k == v.len() {
        return None;
    }
    let c = v[k];
    if c != '"' {
        return None;
    }
    match scan_exec(v, k + 1) {
        None => None,
        Some((key, j)) => {
            let c2 = skip_ws_exec(v, j);
            if c2 == v.len() {
                return None;
            }
            let cc = v[c2];
            if cc != ':' {
                return None;
            }
            let vp = skip_ws_exec(v, c2 + 1);
            match apply_member_exec(v, vp, key, f) {
                None => None,
                Some((f2, e)) => {
                    let w = skip_ws_exec(v, e);
                    if w == v.len() {
                        return None;
                    }
                    let cw = v[w];
                    if cw == '}' {
                        Some((f2, w + 1))
                    } else if cw == ',' {
                        parse_members_exec(v, w + 1, f2)
                    } else {
                        None
                    }
                },
            }
        },
    }
}

/// Reads a payload back from wire text. Succeeds exactly on the frames the
/// grammar [`spec_decode`] accepts; everything else is a
/// `MalformedPayload` error.
pub fn decode(s: &str) -> (r: Result<Payload, ChatError>)
    ensures
        r matches Ok(p) ==> spec_decode(s@) == Some(p@) && p@.wf(),
        r matches Err(e) ==> spec_decode(s@) is None && e == ChatError::MalformedPayload,
        r is Ok <==> spec_decode(s@) is Some,
{
    let v = chars_of(s);
    let i = skip_ws_exec(&v, 0);
    if i == v.len() {
        return Err(ChatError::MalformedPayload);
    }
    let c = v[i];
    if c != '{' {
        return Err(ChatError::MalformedPayload);
    }
    let k = skip_ws_exec(&v, i + 1);
    let empty = FieldsBuf { event_type: None, username: None, message: None };
    proof {
        assert(empty@ =~= no_fields());
    }
    let parsed: Option<(FieldsBuf, usize)>;
    if k < v.len() && v[k] == '}' {
        parsed = Some((empty, k + 1));
    } else {
        parsed = parse_members_exec(&v, i + 1, empty);
    }
    match parsed {
        None => Err(ChatError::MalformedPayload),
        Some((fb, e)) => {
            let ghost fields = fb@;
            let tail = skip_ws_exec(&v, e);
            if tail != v.len() {
                return Err(ChatError::MalformedPayload);
            }
            proof {
                assert(spec_decode(s@) == fields_to_payload(fields));
            }
            let (et, un) = match (fb.event_type, fb.username) {
                (Some(a), Some(b)) => (a, b),
                _ => {
                    return Err(ChatError::MalformedPayload);
                },
            };
            if un.len() == 0 {
                return Err(ChatError::MalformedPayload);
            }
            let m: Option<Vec<char>> = match fb.message {
                None => None,
                Some(None) => None,
                Some(Some(x)) => Some(x),
            };
            proof {
                assert(et@ == fields.event_type->Some_0);
                assert(un@ == fields.username->Some_0);
                let mspec: Option<Seq<char>> = match fields.message {
                    None => None,
                    Some(mm) => mm,
                };
                match m {
                    Some(ref x) => {
                        assert(mspec == Some(x@));
                    },
                    None => {
                        assert(mspec is None);
                    },
                }
            }
            if chars_eq_lit(&et, "connected") && m.is_none() {
                let p = Payload {
                    event_type: PayloadEventType::Connected,
                    username: string_of(&un),
                    message: None,
                };
                proof {
                    assert(fields_to_payload(fields) == Some(p@));
                }
                Ok(p)
            } else if chars_eq_lit(&et, "disconnected") && m.is_none() {
                let p = Payload {
                    event_type: PayloadEventType::Disconnected,
                    username: string_of(&un),
                    message: None,
                };
                proof {
                    assert(fields_to_payload(fields) == Some(p@));
                }
                Ok(p)
            } else if chars_eq_lit(&et, "message") && m.is_some() {
                let body = match m {
                    Some(x) => x,
                    None => {
                        proof {
                            assert(false);
                        }
                        return Err(ChatError::MalformedPayload);
                    },
                };
                let p = Payload {
                    event_type: PayloadEventType::Message,
                    username: string_of(&un),
                    message: Some(string_of(&body)),
                };
                proof {
                    assert(fields_to_payload(fields) == Some(p@));
                }
                Ok(p)
            } else {
                proof {
                    assert(fields_to_payload(fields) is None);
                }
                Err(ChatError::MalformedPayload)
            }
        },
    }
}

} // verus!
