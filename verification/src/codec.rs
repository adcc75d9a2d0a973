//! The stored form of a record: one line of JSON with the fields in a fixed
//! order, and the reader that takes exactly that form back.
//!
//! The reader is strict. It accepts what the writer produces, and the same
//! without the trailing `clicks` field, which then counts as 0; it accepts
//! nothing else. Both directions are proved: what was written reads back as
//! the same record, and what reads as a record is a written form of it.

use vstd::prelude::*;
use vstd::std_specs::iter::IteratorSpec;
use vstd::string::StringExecFns;
use crate::decimal::{
    decimal, digit_char, digits, is_digit, lemma_read_i64_canonical, lemma_read_i64_of_decimal,
    lemma_read_u64_canonical, lemma_read_u64_of_digits, parse_i64, parse_u64, push_decimal,
    push_digits, read_i64, read_u64,
};
use crate::model::{RecordView, UrlRecord};
use crate::text::{chars_of, lemma_char_range, push_char};

verus! {

/// The hexadecimal digit for `d`, where `0 <= d <= 15`, in lower case.
pub open spec fn hex_char(d: int) -> char {
    if d < 10 {
        digit_char(d)
    } else {
        ((87 + d) as u8) as char
    }
}

/// The value of a lower-case hexadecimal digit; `None` for any other character.
pub open spec fn hex_value(c: char) -> Option<int> {
    if is_digit(c) {
        Some(c as int - 48)
    } else if 'a' <= c && c <= 'f' {
        Some(c as int - 87)
    } else {
        None
    }
}

/// Whether `c` is a control character: one before the space.
pub open spec fn is_control(c: char) -> bool {
    ' ' > c
}

/// How one character stands inside a quoted text: a quote and a backslash
/// after a backslash, a control character as `\u00` and two hexadecimal
/// digits, any other character as itself.
pub open spec fn escaped_char(c: char) -> Seq<char> {
    if c == '"' {
        seq!['\\', '"']
    } else if c == '\\' {
        seq!['\\', '\\']
    } else if is_control(c) {
        seq!['\\', 'u', '0', '0', hex_char(c as int / 16), hex_char(c as int % 16)]
    } else {
        seq![c]
    }
}

/// How a text stands between its quotes: each character escaped, in order.
pub open spec fn escaped(text: Seq<char>) -> Seq<char>
    decreases text.len(),
{
    if text.len() == 0 {
        Seq::empty()
    } else {
        escaped_char(text[0]) + escaped(text.drop_first())
    }
}

/// Reads one character of a quoted text at position `i` of `s`, escaped or
/// not, and gives it with the position after it. `None` at a closing quote, at
/// a control character, and at an escape that the writer does not produce.
pub open spec fn read_char(s: Seq<char>, i: int) -> Option<(char, int)> {
    if !(0 <= i < s.len()) {
        None
    } else if s[i] == '\\' {
        if i + 1 < s.len() && (s[i + 1] == '"' || s[i + 1] == '\\') {
            Some((s[i + 1], i + 2))
        } else if i + 5 < s.len() && s[i + 1] == 'u' && s[i + 2] == '0' && s[i + 3] == '0' && (s[i + 4] == '0'
            || s[i + 4] == '1') && hex_value(s[i + 5]) is Some {
            Some(((((s[i + 4] as int - 48) * 16 + hex_value(s[i + 5])->0) as u8) as char, i + 6))
        } else {
            None
        }
    } else if s[i] == '"' || is_control(s[i]) {
        None
    } else {
        Some((s[i], i + 1))
    }
}

/// Reads a quoted text from position `i` of `s`, which is the position after
/// the opening quote, up to the closing quote. Gives the text, unescaped, and
/// the position after the closing quote.
pub open spec fn read_text(s: Seq<char>, i: int) -> Option<(Seq<char>, int)>
    decreases s.len() - i,
{
    if !(0 <= i < s.len()) {
        None
    } else if s[i] == '"' {
        Some((Seq::empty(), i + 1))
    } else {
        match read_char(s, i) {
            Some((c, j)) => match read_text(s, j) {
                Some((rest, k)) => Some((seq![c] + rest, k)),
                None => None,
            },
            None => None,
        }
    }
}

/// An escaped character reads back as the character.
pub proof fn lemma_read_escaped_char(s: Seq<char>, i: int, c: char)
    requires
        0 <= i,
        i + escaped_char(c).len() <= s.len(),
        s.subrange(i, i + escaped_char(c).len()) == escaped_char(c),
    ensures
        read_char(s, i) == Some((c, i + escaped_char(c).len())),
        s[i] != '"',
{
    lemma_char_range(c);
    let e = escaped_char(c);
    assert forall|k: int| 0 <= k < e.len() implies s[i + k] == e[k] by {
        assert(s.subrange(i, i + e.len())[k] == s[i + k]);
    }
    assert(s[i] == e[0]);
    if c == '"' || c == '\\' {
        assert(s[i + 1] == e[1]);
    } else if is_control(c) {
        assert(s[i + 1] == e[1]);
        assert(s[i + 2] == e[2]);
        assert(s[i + 3] == e[3]);
        assert(s[i + 4] == e[4]);
        assert(s[i + 5] == e[5]);
    }
}

/// What reads as a character is the escaped form of that character.
pub proof fn lemma_read_char_canonical(s: Seq<char>, i: int)
    requires
        read_char(s, i) is Some,
    ensures
        ({
            let (c, j) = read_char(s, i)->0;
            &&& i < j <= s.len()
            &&& s.subrange(i, j) == escaped_char(c)
        }),
{
    let (c, j) = read_char(s, i)->0;
    lemma_char_range(s[i]);
    if s[i] == '\\' {
        if i + 1 < s.len() && (s[i + 1] == '"' || s[i + 1] == '\\') {
            assert(s.subrange(i, j) =~= escaped_char(c));
        } else {
            lemma_char_range(s[i + 4]);
            lemma_char_range(s[i + 5]);
            assert(s.subrange(i, j) =~= escaped_char(c));
        }
    } else {
        assert(s.subrange(i, j) =~= escaped_char(c));
    }
}

/// A text that stands escaped in `s` from `i` on, with a quote after it,
/// reads back as the text.
pub proof fn lemma_read_escaped(s: Seq<char>, i: int, text: Seq<char>)
    requires
        0 <= i,
        i + escaped(text).len() < s.len(),
        s.subrange(i, i + escaped(text).len()) == escaped(text),
        s[i + escaped(text).len()] == '"',
    ensures
        read_text(s, i) == Some((text, i + escaped(text).len() + 1)),
    decreases text.len(),
{
    if text.len() > 0 {
        let c = text[0];
        let e = escaped_char(c);
        let tail = text.drop_first();
        let whole = escaped(text);
        assert(whole == e + escaped(tail));
        assert(s.subrange(i, i + e.len()) =~= whole.subrange(0, e.len() as int));
        assert(whole.subrange(0, e.len() as int) =~= e);
        lemma_read_escaped_char(s, i, c);
        let j = i + e.len();
        assert(s.subrange(j, j + escaped(tail).len()) =~= whole.subrange(e.len() as int, whole.len() as int));
        assert(whole.subrange(e.len() as int, whole.len() as int) =~= escaped(tail));
        lemma_read_escaped(s, j, tail);
        assert(seq![c] + tail =~= text);
    }
}

/// What reads as a text is the escaped form of that text and a quote.
pub proof fn lemma_read_text_canonical(s: Seq<char>, i: int)
    requires
        read_text(s, i) is Some,
    ensures
        ({
            let (text, k) = read_text(s, i)->0;
            &&& 0 <= i < k <= s.len()
            &&& s.subrange(i, k) == escaped(text).push('"')
        }),
    decreases s.len() - i,
{
    let (text, k) = read_text(s, i)->0;
    if s[i] == '"' {
        assert(s.subrange(i, k) =~= escaped(text).push('"'));
    } else {
        let (c, j) = read_char(s, i)->0;
        lemma_read_char_canonical(s, i);
        lemma_read_text_canonical(s, j);
        let (rest, k2) = read_text(s, j)->0;
        assert(text == seq![c] + rest);
        assert(text[0] == c);
        assert(text.drop_first() =~= rest);
        assert(escaped(text) == escaped_char(c) + escaped(rest));
        assert(s.subrange(i, k) =~= s.subrange(i, j) + s.subrange(j, k));
        assert(s.subrange(i, k) =~= escaped(text).push('"'));
    }
}

/// The lower-case hexadecimal digit for `d`.
fn hex_of(d: u8) -> (c: char)
    requires
        d < 16,
    ensures
        c == hex_char(d as int),
{
    if d < 10 {
        (48u8 + d) as char
    } else {
        (87u8 + d) as char
    }
}

/// Appends one character to `out` in its escaped form.
pub fn push_escaped_char(out: &mut String, c: char)
    ensures
        final(out)@ == old(out)@ + escaped_char(c),
{
    if c == '"' {
        push_char(out, '\\');
        push_char(out, '"');
    } else if c == '\\' {
        push_char(out, '\\');
        push_char(out, '\\');
    } else if (c as u32) < 32 {
        let v: u8 = c as u8;
        push_char(out, '\\');
        push_char(out, 'u');
        push_char(out, '0');
        push_char(out, '0');
        push_char(out, hex_of(v / 16));
        push_char(out, hex_of(v % 16));
    } else {
        push_char(out, c);
    }
    assert(out@ =~= old(out)@ + escaped_char(c));
}

/// Appends `text` to `out` in its escaped form.
pub fn push_escaped(out: &mut String, text: &str)
    ensures
        final(out)@ == old(out)@ + escaped(text@),
{
    let mut it = text.chars();
    assert(old(out)@ + escaped(text@) =~= out@ + escaped(it.remaining()));
    loop
        invariant
            it.obeys_prophetic_iter_laws(),
            it.decrease() is Some,
            out@ + escaped(it.remaining()) == old(out)@ + escaped(text@),
        ensures
            out@ == old(out)@ + escaped(text@),
        decreases it.decrease()->0,
    {
        let ghost before = out@;
        let ghost pending = it.remaining();
        match it.next() {
            Some(c) => {
                push_escaped_char(out, c);
                assert(escaped(pending) == escaped_char(c) + escaped(pending.drop_first()));
                assert(out@ + escaped(it.remaining()) =~= before + escaped(pending));
            },
            None => {
                assert(escaped(pending) =~= Seq::<char>::empty());
                assert(out@ =~= out@ + escaped(pending));
                break;
            },
        }
    }
}

/// Appends `text` to `out` between quotes, escaped.
pub fn push_quoted(out: &mut String, text: &str)
    ensures
        final(out)@ == old(out)@ + seq!['"'] + escaped(text@) + seq!['"'],
{
    push_char(out, '"');
    push_escaped(out, text);
    push_char(out, '"');
    assert(out@ =~= old(out)@ + seq!['"'] + escaped(text@) + seq!['"']);
}

/// The value of a lower-case hexadecimal digit.
fn hex_value_of(c: char) -> (v: Option<u8>)
    ensures
        match v {
            Some(d) => hex_value(c) == Some(d as int) && d < 16,
            None => hex_value(c) is None,
        },
{
    let n: u32 = c as u32;
    if 48 <= n && n <= 57 {
        Some((n - 48) as u8)
    } else if 97 <= n && n <= 102 {
        Some((n - 87) as u8)
    } else {
        None
    }
}

/// Reads one character of a quoted text at position `i` of `s`.
fn parse_char(s: &Vec<char>, i: usize) -> (read: Option<(char, usize)>)
    ensures
        match read {
            Some((c, j)) => read_char(s@, i as int) == Some((c, j as int)),
            None => read_char(s@, i as int) is None,
        },
{
    let len: usize = s.len();
    if i >= len {
        return None;
    }
    let c: char = s[i];
    if c == '\\' {
        if len - i > 1 && (s[i + 1] == '"' || s[i + 1] == '\\') {
            Some((s[i + 1], i + 2))
        } else if len - i > 5 && s[i + 1] == 'u' && s[i + 2] == '0' && s[i + 3] == '0' && (s[i + 4] == '0'
            || s[i + 4] == '1') {
            match hex_value_of(s[i + 5]) {
                Some(low) => {
                    let high: u8 = if s[i + 4] == '1' { 1 } else { 0 };
                    let v: u8 = high * 16 + low;
                    Some((v as char, i + 6))
                },
                None => None,
            }
        } else {
            None
        }
    } else if c == '"' || ' ' > c {
        None
    } else {
        Some((c, i + 1))
    }
}

/// Reads a quoted text from position `i` of `s`, the position after its
/// opening quote, and gives the text with the position after its closing
/// quote.
pub fn parse_text(s: &Vec<char>, i: usize) -> (read: Option<(String, usize)>)
    ensures
        match read {
            Some((text, k)) => read_text(s@, i as int) == Some((text@, k as int)),
            None => read_text(s@, i as int) is None,
        },
{
    let len: usize = s.len();
    let mut out = String::new();
    let mut j: usize = i;
    loop
        invariant
            i <= j,
            len == s@.len(),
            read_text(s@, i as int) == (match read_text(s@, j as int) {
                Some((rest, k)) => Some((out@ + rest, k)),
                None => None,
            }),
        decreases len - j,
    {
        if j >= len {
            return None;
        }
        if s[j] == '"' {
            assert(out@ + Seq::<char>::empty() =~= out@);
            return Some((out, j + 1));
        }
        match parse_char(s, j) {
            None => {
                return None;
            },
            Some((c, next)) => {
                proof {
                    if let Some((rest, k)) = read_text(s@, next as int) {
                        assert(out@.push(c) + rest =~= out@ + (seq![c] + rest));
                    }
                }
                push_char(&mut out, c);
                j = next;
            },
        }
    }
}

/// How the owner of a record stands in its stored form: `null`, or the owner
/// between quotes.
pub open spec fn encoded_owner(owner: Option<Seq<char>>) -> Seq<char> {
    match owner {
        Some(o) => seq!['"'] + escaped(o) + seq!['"'],
        None => "null"@,
    }
}

/// The stored form of a record up to its creation time.
pub open spec fn encoded_head(r: RecordView) -> Seq<char> {
    "{\"id\":\""@ + escaped(r.id) + seq!['"'] + ",\"original_url\":\""@ + escaped(r.original_url) + seq!['"']
        + ",\"short_url\":\""@ + escaped(r.short_url) + seq!['"'] + ",\"ref_id\":"@ + encoded_owner(r.ref_id)
        + ",\"created_at\":"@ + decimal(r.created_at as int)
}

/// The stored form of a record.
pub open spec fn encoded(r: RecordView) -> Seq<char> {
    encoded_head(r) + ",\"clicks\":"@ + digits(r.clicks as nat) + "}"@
}

/// The stored form of a record from before clicks were counted: the same
/// without the `clicks` field.
pub open spec fn encoded_without_clicks(r: RecordView) -> Seq<char> {
    encoded_head(r) + "}"@
}

/// Whether `s` is a stored form of `r`: the form that the writer produces or,
/// for a record with no clicks, the form without the `clicks` field.
pub open spec fn is_stored_form(s: Seq<char>, r: RecordView) -> bool {
    s == encoded(r) || (r.clicks == 0 && s == encoded_without_clicks(r))
}

/// Where `lit` stands in `s` at position `i`, the position after it.
pub open spec fn expect(s: Seq<char>, i: int, lit: Seq<char>) -> Option<int> {
    if 0 <= i && i + lit.len() <= s.len() && s.subrange(i, i + lit.len()) == lit {
        Some(i + lit.len())
    } else {
        None
    }
}

/// Reads `label`, which ends in an opening quote, and the text after it.
pub open spec fn read_field(s: Seq<char>, i: int, label: Seq<char>) -> Option<(Seq<char>, int)> {
    match expect(s, i, label) {
        Some(j) => read_text(s, j),
        None => None,
    }
}

/// Reads the owner of a record: `null`, or a quoted text.
pub open spec fn read_owner(s: Seq<char>, i: int) -> Option<(Option<Seq<char>>, int)> {
    match expect(s, i, "null"@) {
        Some(j) => Some((None, j)),
        None => match read_field(s, i, seq!['"']) {
            Some((o, k)) => Some((Some(o), k)),
            None => None,
        },
    }
}

/// Reads the creation time of a record, with its label.
pub open spec fn read_created(s: Seq<char>, i: int) -> Option<(i64, int)> {
    match expect(s, i, ",\"created_at\":"@) {
        Some(j) => read_i64(s, j),
        None => None,
    }
}

/// Reads the end of a record: the closing brace, before it the click count
/// with its label or nothing, which counts as 0. Nothing may follow the brace.
pub open spec fn read_clicks(s: Seq<char>, i: int) -> Option<u64> {
    match expect(s, i, "}"@) {
        Some(j) => if j == s.len() {
            Some(0)
        } else {
            None
        },
        None => match expect(s, i, ",\"clicks\":"@) {
            Some(j) => match read_u64(s, j) {
                Some((n, k)) => if expect(s, k, "}"@) == Some(s.len() as int) {
                    Some(n)
                } else {
                    None
                },
                None => None,
            },
            None => None,
        },
    }
}

/// The record that a stored form stands for; `None` for a text that is no
/// stored form of any record.
pub open spec fn decoded(s: Seq<char>) -> Option<RecordView> {
    match read_field(s, 0, "{\"id\":\""@) {
        None => None,
        Some((id, a)) => match read_field(s, a, ",\"original_url\":\""@) {
            None => None,
            Some((original_url, b)) => match read_field(s, b, ",\"short_url\":\""@) {
                None => None,
                Some((short_url, c)) => match expect(s, c, ",\"ref_id\":"@) {
                    None => None,
                    Some(d) => match read_owner(s, d) {
                        None => None,
                        Some((ref_id, e)) => match read_created(s, e) {
                            None => None,
                            Some((created_at, f)) => match read_clicks(s, f) {
                                None => None,
                                Some(clicks) => Some(
                                    RecordView { id, original_url, short_url, ref_id, created_at, clicks },
                                ),
                            },
                        },
                    },
                },
            },
        },
    }
}

/// The stored form of `r`.
pub fn encode_record(r: &UrlRecord) -> (out: String)
    ensures
        out@ == encoded(r@),
{
    let mut out = String::new();
    out.append("{\"id\":\"");
    push_escaped(&mut out, r.id.as_str());
    push_char(&mut out, '"');
    out.append(",\"original_url\":\"");
    push_escaped(&mut out, r.original_url.as_str());
    push_char(&mut out, '"');
    out.append(",\"short_url\":\"");
    push_escaped(&mut out, r.short_url.as_str());
    push_char(&mut out, '"');
    out.append(",\"ref_id\":");
    match &r.ref_id {
        Some(owner) => {
            push_quoted(&mut out, owner.as_str());
        },
        None => {
            out.append("null");
        },
    }
    out.append(",\"created_at\":");
    push_decimal(&mut out, r.created_at);
    assert(out@ =~= encoded_head(r@));
    out.append(",\"clicks\":");
    push_digits(&mut out, r.clicks);
    out.append("}");
    out
}

/// Where `lit` stands in `s` at position `i`, the position after it.
fn skip_literal(s: &Vec<char>, i: usize, lit: &str) -> (after: Option<usize>)
    ensures
        match after {
            Some(j) => expect(s@, i as int, lit@) == Some(j as int),
            None => expect(s@, i as int, lit@) is None,
        },
{
    let len: usize = s.len();
    if i > len {
        return None;
    }
    let mut it = lit.chars();
    let mut j: usize = i;
    assert(lit@.take(0) =~= Seq::<char>::empty());
    assert(s@.subrange(i as int, i as int) =~= Seq::<char>::empty());
    loop
        invariant
            it.obeys_prophetic_iter_laws(),
            it.decrease() is Some,
            len == s@.len(),
            i <= j <= len,
            j - i <= lit@.len(),
            lit@ == lit@.take(j - i) + it.remaining(),
            s@.subrange(i as int, j as int) == lit@.take(j - i),
        decreases it.decrease()->0,
    {
        let ghost pending = it.remaining();
        match it.next() {
            None => {
                assert(lit@ =~= lit@.take(j - i));
                return Some(j);
            },
            Some(c) => {
                assert(lit@[j - i] == c);
                if j < len && s[j] == c {
                    assert(s@.subrange(i as int, j + 1) =~= s@.subrange(i as int, j as int).push(c));
                    assert(lit@.take(j + 1 - i) =~= lit@.take(j - i).push(c));
                    assert(lit@ =~= lit@.take(j + 1 - i) + it.remaining());
                    j = j + 1;
                } else {
                    proof {
                        if i + lit@.len() <= len {
                            assert(s@.subrange(i as int, i + lit@.len())[j - i] == s@[j as int]);
                        }
                    }
                    return None;
                }
            },
        }
    }
}

/// Reads `label`, which ends in an opening quote, and the text after it.
fn parse_field(s: &Vec<char>, i: usize, label: &str) -> (read: Option<(String, usize)>)
    ensures
        match read {
            Some((text, k)) => read_field(s@, i as int, label@) == Some((text@, k as int)),
            None => read_field(s@, i as int, label@) is None,
        },
{
    match skip_literal(s, i, label) {
        Some(j) => parse_text(s, j),
        None => None,
    }
}

/// The record that `text` is a stored form of; `None` where it is the stored
/// form of no record.
pub fn decode_record(text: &str) -> (out: Option<UrlRecord>)
    ensures
        match out {
            Some(r) => decoded(text@) == Some(r@) && is_stored_form(text@, r@),
            None => decoded(text@) is None && forall|r: RecordView| !is_stored_form(text@, r),
        },
{
    let out = read_record(text);
    proof {
        lemma_decoded_iff_stored(text@);
    }
    out
}

/// Reads a record from its stored form, field by field.
fn read_record(text: &str) -> (out: Option<UrlRecord>)
    ensures
        match out {
            Some(r) => decoded(text@) == Some(r@),
            None => decoded(text@) is None,
        },
{
    let s = chars_of(text);
    let (id, a) = match parse_field(&s, 0, "{\"id\":\"") {
        Some(read) => read,
        None => { return None; },
    };
    let (original_url, b) = match parse_field(&s, a, ",\"original_url\":\"") {
        Some(read) => read,
        None => { return None; },
    };
    let (short_url, c) = match parse_field(&s, b, ",\"short_url\":\"") {
        Some(read) => read,
        None => { return None; },
    };
    let d = match skip_literal(&s, c, ",\"ref_id\":") {
        Some(after) => after,
        None => { return None; },
    };
    let (ref_id, e) = match skip_literal(&s, d, "null") {
        Some(after) => (None, after),
        None => {
            proof {
                reveal_strlit("\"");
                assert("\""@ =~= seq!['"']);
            }
            match parse_field(&s, d, "\"") {
                Some((owner, after)) => (Some(owner), after),
                None => { return None; },
            }
        },
    };
    let f = match skip_literal(&s, e, ",\"created_at\":") {
        Some(after) => after,
        None => { return None; },
    };
    let (created_at, g) = match parse_i64(&s, f) {
        Some(read) => read,
        None => { return None; },
    };
    let clicks: u64 = match skip_literal(&s, g, "}") {
        Some(end) => {
            if end != s.len() {
                return None;
            }
            0
        },
        None => {
            let h = match skip_literal(&s, g, ",\"clicks\":") {
                Some(after) => after,
                None => { return None; },
            };
            let (n, k) = match parse_u64(&s, h) {
                Some(read) => read,
                None => { return None; },
            };
            match skip_literal(&s, k, "}") {
                Some(end) => {
                    if end != s.len() {
                        return None;
                    }
                },
                None => { return None; },
            }
            n
        },
    };
    Some(UrlRecord { id, original_url, short_url, ref_id, created_at, clicks })
}

/// How a labelled text stands before `rest`.
spec fn with_field(label: Seq<char>, text: Seq<char>, rest: Seq<char>) -> Seq<char> {
    label + (escaped(text) + (seq!['"'] + rest))
}

/// How an owner stands before `rest`.
spec fn with_owner(owner: Option<Seq<char>>, rest: Seq<char>) -> Seq<char> {
    match owner {
        Some(o) => with_field(seq!['"'], o, rest),
        None => "null"@ + rest,
    }
}

/// How a creation time stands before `rest`.
spec fn with_created(created_at: i64, rest: Seq<char>) -> Seq<char> {
    ",\"created_at\":"@ + (decimal(created_at as int) + rest)
}

/// How a click count stands at the end of a stored form.
spec fn clicks_tail(clicks: u64) -> Seq<char> {
    ",\"clicks\":"@ + (digits(clicks as nat) + "}"@)
}

/// A stored form with the given end, written piece before rest.
spec fn nested(r: RecordView, tail: Seq<char>) -> Seq<char> {
    with_field(
        "{\"id\":\""@,
        r.id,
        with_field(
            ",\"original_url\":\""@,
            r.original_url,
            with_field(
                ",\"short_url\":\""@,
                r.short_url,
                ",\"ref_id\":"@ + with_owner(r.ref_id, with_created(r.created_at, tail)),
            ),
        ),
    )
}

proof fn lemma_nested(r: RecordView, tail: Seq<char>)
    ensures
        encoded_head(r) + tail == nested(r, tail),
{
    let t5 = with_created(r.created_at, tail);
    let t4 = ",\"ref_id\":"@ + with_owner(r.ref_id, t5);
    let t3 = with_field(",\"short_url\":\""@, r.short_url, t4);
    let t2 = with_field(",\"original_url\":\""@, r.original_url, t3);
    let h1 = "{\"id\":\""@ + escaped(r.id) + seq!['"'];
    let h2 = h1 + ",\"original_url\":\""@ + escaped(r.original_url) + seq!['"'];
    let h3 = h2 + ",\"short_url\":\""@ + escaped(r.short_url) + seq!['"'];
    let h4 = h3 + ",\"ref_id\":"@ + encoded_owner(r.ref_id);
    assert(encoded_owner(r.ref_id) + t5 =~= with_owner(r.ref_id, t5));
    assert(encoded_head(r) + tail =~= h4 + t5);
    assert(h4 + t5 =~= h3 + t4);
    assert(h3 + t4 =~= h2 + t3);
    assert(h2 + t3 =~= h1 + t2);
    assert(h1 + t2 =~= nested(r, tail));
}

/// A text that starts with `a` at `i` holds `a` there, and the rest after it.
proof fn lemma_split(s: Seq<char>, i: int, a: Seq<char>, b: Seq<char>)
    requires
        0 <= i <= s.len(),
        s.skip(i) == a + b,
    ensures
        i + a.len() <= s.len(),
        s.subrange(i, i + a.len()) == a,
        s.skip(i + a.len()) == b,
        expect(s, i, a) == Some(i + a.len()),
        b.len() > 0 ==> s[i + a.len()] == b[0],
{
    assert(s.skip(i).len() == a.len() + b.len());
    assert forall|k: int| 0 <= k < a.len() implies s[i + k] == a[k] by {
        assert(s.skip(i)[k] == s[i + k]);
    }
    assert(s.subrange(i, i + a.len()) =~= a);
    assert forall|k: int| 0 <= k < b.len() implies s[i + a.len() + k] == b[k] by {
        assert(s.skip(i)[a.len() + k] == s[i + a.len() + k]);
    }
    assert(s.skip(i + a.len()) =~= b);
}

proof fn lemma_read_with_field(s: Seq<char>, i: int, label: Seq<char>, text: Seq<char>, rest: Seq<char>) -> (j: int)
    requires
        0 <= i <= s.len(),
        s.skip(i) == with_field(label, text, rest),
    ensures
        read_field(s, i, label) == Some((text, j)),
        i <= j <= s.len(),
        s.skip(j) == rest,
{
    lemma_split(s, i, label, escaped(text) + (seq!['"'] + rest));
    let a = i + label.len();
    lemma_split(s, a, escaped(text), seq!['"'] + rest);
    let b = a + escaped(text).len();
    lemma_split(s, b, seq!['"'], rest);
    lemma_read_escaped(s, a, text);
    b + 1
}

proof fn lemma_read_with_owner(s: Seq<char>, i: int, owner: Option<Seq<char>>, rest: Seq<char>) -> (j: int)
    requires
        0 <= i <= s.len(),
        s.skip(i) == with_owner(owner, rest),
    ensures
        read_owner(s, i) == Some((owner, j)),
        i <= j <= s.len(),
        s.skip(j) == rest,
{
    reveal_strlit("null");
    match owner {
        None => {
            lemma_split(s, i, "null"@, rest);
            i + "null"@.len()
        },
        Some(o) => {
            lemma_split(s, i, seq!['"'], escaped(o) + (seq!['"'] + rest));
            if expect(s, i, "null"@) is Some {
                assert(s.subrange(i, i + 4)[0] == s[i]);
            }
            lemma_read_with_field(s, i, seq!['"'], o, rest)
        },
    }
}

proof fn lemma_read_with_created(s: Seq<char>, i: int, created_at: i64, rest: Seq<char>) -> (j: int)
    requires
        0 <= i <= s.len(),
        s.skip(i) == with_created(created_at, rest),
        rest.len() > 0 && !is_digit(rest[0]),
    ensures
        read_created(s, i) == Some((created_at, j)),
        i <= j <= s.len(),
        s.skip(j) == rest,
{
    let text = decimal(created_at as int);
    lemma_split(s, i, ",\"created_at\":"@, text + rest);
    let a = i + ",\"created_at\":"@.len();
    lemma_split(s, a, text, rest);
    lemma_read_i64_of_decimal(s, a, created_at);
    a + text.len()
}

proof fn lemma_read_clicks_tail(s: Seq<char>, i: int, clicks: u64)
    requires
        0 <= i <= s.len(),
        s.skip(i) == clicks_tail(clicks),
    ensures
        read_clicks(s, i) == Some(clicks),
{
    reveal_strlit("}");
    reveal_strlit(",\"clicks\":");
    let text = digits(clicks as nat);
    lemma_split(s, i, ",\"clicks\":"@, text + "}"@);
    if expect(s, i, "}"@) is Some {
        assert(s.subrange(i, i + 1)[0] == s[i]);
        assert(s.subrange(i, i + ",\"clicks\":"@.len())[0] == s[i]);
    }
    let a = i + ",\"clicks\":"@.len();
    lemma_split(s, a, text, "}"@);
    lemma_read_u64_of_digits(s, a, clicks);
    let b = a + text.len();
    assert("}"@ =~= "}"@ + Seq::<char>::empty());
    lemma_split(s, b, "}"@, Seq::<char>::empty());
}

/// Reading a stored form up to its creation time gives the record's fields,
/// and leaves the end of the form to read.
proof fn lemma_decode_nested(r: RecordView, tail: Seq<char>) -> (f: int)
    requires
        tail.len() > 0 && !is_digit(tail[0]),
    ensures
        0 <= f <= nested(r, tail).len(),
        nested(r, tail).skip(f) == tail,
        decoded(nested(r, tail)) == (match read_clicks(nested(r, tail), f) {
            Some(clicks) => Some(
                RecordView {
                    id: r.id,
                    original_url: r.original_url,
                    short_url: r.short_url,
                    ref_id: r.ref_id,
                    created_at: r.created_at,
                    clicks,
                },
            ),
            None => None,
        }),
{
    let s = nested(r, tail);
    let t5 = with_created(r.created_at, tail);
    let t4 = ",\"ref_id\":"@ + with_owner(r.ref_id, t5);
    let t3 = with_field(",\"short_url\":\""@, r.short_url, t4);
    let t2 = with_field(",\"original_url\":\""@, r.original_url, t3);
    assert(s.skip(0) =~= s);
    let a = lemma_read_with_field(s, 0, "{\"id\":\""@, r.id, t2);
    let b = lemma_read_with_field(s, a, ",\"original_url\":\""@, r.original_url, t3);
    let c = lemma_read_with_field(s, b, ",\"short_url\":\""@, r.short_url, t4);
    lemma_split(s, c, ",\"ref_id\":"@, with_owner(r.ref_id, t5));
    let d = c + ",\"ref_id\":"@.len();
    let e = lemma_read_with_owner(s, d, r.ref_id, t5);
    lemma_read_with_created(s, e, r.created_at, tail)
}

/// Round trip: the stored form of a record reads back as that record.
pub proof fn lemma_decode_encoded(r: RecordView)
    ensures
        decoded(encoded(r)) == Some(r),
{
    reveal_strlit(",\"clicks\":");
    let tail = clicks_tail(r.clicks);
    assert(encoded(r) =~= encoded_head(r) + tail);
    lemma_nested(r, tail);
    let f = lemma_decode_nested(r, tail);
    lemma_read_clicks_tail(nested(r, tail), f, r.clicks);
}

/// A stored form without the `clicks` field reads as the record with no
/// clicks.
pub proof fn lemma_decode_without_clicks(r: RecordView)
    requires
        r.clicks == 0,
    ensures
        decoded(encoded_without_clicks(r)) == Some(r),
{
    reveal_strlit("}");
    let tail = "}"@;
    lemma_nested(r, tail);
    let f = lemma_decode_nested(r, tail);
    assert("}"@ =~= "}"@ + Seq::<char>::empty());
    lemma_split(nested(r, tail), f, "}"@, Seq::<char>::empty());
}

proof fn lemma_read_field_canonical(s: Seq<char>, i: int, label: Seq<char>)
    requires
        read_field(s, i, label) is Some,
    ensures
        ({
            let (text, k) = read_field(s, i, label)->0;
            &&& 0 <= i <= k <= s.len()
            &&& s.subrange(i, k) == label + escaped(text) + seq!['"']
        }),
{
    let (text, k) = read_field(s, i, label)->0;
    let j = expect(s, i, label)->0;
    lemma_read_text_canonical(s, j);
    assert(s.subrange(i, k) =~= s.subrange(i, j) + s.subrange(j, k));
    assert(escaped(text).push('"') =~= escaped(text) + seq!['"']);
    assert(s.subrange(i, k) =~= label + escaped(text) + seq!['"']);
}

proof fn lemma_read_owner_canonical(s: Seq<char>, i: int)
    requires
        read_owner(s, i) is Some,
    ensures
        ({
            let (owner, k) = read_owner(s, i)->0;
            &&& 0 <= i <= k <= s.len()
            &&& s.subrange(i, k) == encoded_owner(owner)
        }),
{
    if expect(s, i, "null"@) is None {
        lemma_read_field_canonical(s, i, seq!['"']);
    }
}

proof fn lemma_read_created_canonical(s: Seq<char>, i: int)
    requires
        read_created(s, i) is Some,
    ensures
        ({
            let (created_at, k) = read_created(s, i)->0;
            &&& 0 <= i <= k <= s.len()
            &&& s.subrange(i, k) == ",\"created_at\":"@ + decimal(created_at as int)
        }),
{
    let (created_at, k) = read_created(s, i)->0;
    let j = expect(s, i, ",\"created_at\":"@)->0;
    lemma_read_i64_canonical(s, j);
    assert(s.subrange(i, k) =~= s.subrange(i, j) + s.subrange(j, k));
}

proof fn lemma_read_clicks_canonical(s: Seq<char>, i: int)
    requires
        0 <= i <= s.len(),
        read_clicks(s, i) is Some,
    ensures
        ({
            let clicks = read_clicks(s, i)->0;
            ||| s.skip(i) == ",\"clicks\":"@ + digits(clicks as nat) + "}"@
            ||| clicks == 0 && s.skip(i) == "}"@
        }),
{
    let clicks = read_clicks(s, i)->0;
    if expect(s, i, "}"@) is Some {
        assert(s.skip(i) =~= s.subrange(i, s.len() as int));
    } else {
        let j = expect(s, i, ",\"clicks\":"@)->0;
        lemma_read_u64_canonical(s, j);
        let (n, k) = read_u64(s, j)->0;
        assert(s.skip(i) =~= s.subrange(i, j) + s.subrange(j, k) + s.subrange(k, s.len() as int));
    }
}

/// Two adjoining stretches of a text make one stretch.
proof fn lemma_adjoin(s: Seq<char>, i: int, j: int, k: int)
    requires
        0 <= i <= j <= k <= s.len(),
    ensures
        s.subrange(i, j) + s.subrange(j, k) == s.subrange(i, k),
{
    assert(s.subrange(i, j) + s.subrange(j, k) =~= s.subrange(i, k));
}

/// Appending a labelled text, piece by piece or as one.
proof fn lemma_append_field(head: Seq<char>, label: Seq<char>, body: Seq<char>)
    ensures
        head + (label + body + seq!['"']) == head + label + body + seq!['"'],
{
    assert(head + (label + body + seq!['"']) =~= head + label + body + seq!['"']);
}

/// The fields that `decoded` reads stand in the text as in a stored form.
proof fn lemma_decoded_head(s: Seq<char>) -> (f: int)
    requires
        decoded(s) is Some,
    ensures
        0 <= f <= s.len(),
        s.subrange(0, f) == encoded_head(decoded(s)->0),
        read_clicks(s, f) == Some(decoded(s)->0.clicks),
{
    let r = decoded(s)->0;
    let (id, a) = read_field(s, 0, "{\"id\":\""@)->0;
    lemma_read_field_canonical(s, 0, "{\"id\":\""@);
    let (original_url, b) = read_field(s, a, ",\"original_url\":\""@)->0;
    lemma_read_field_canonical(s, a, ",\"original_url\":\""@);
    let (short_url, c) = read_field(s, b, ",\"short_url\":\""@)->0;
    lemma_read_field_canonical(s, b, ",\"short_url\":\""@);
    let d = expect(s, c, ",\"ref_id\":"@)->0;
    let (ref_id, e) = read_owner(s, d)->0;
    lemma_read_owner_canonical(s, d);
    let (created_at, f) = read_created(s, e)->0;
    lemma_read_created_canonical(s, e);
    let h1 = "{\"id\":\""@ + escaped(r.id) + seq!['"'];
    let h2 = h1 + ",\"original_url\":\""@ + escaped(r.original_url) + seq!['"'];
    let h3 = h2 + ",\"short_url\":\""@ + escaped(r.short_url) + seq!['"'];
    let h4 = h3 + ",\"ref_id\":"@;
    let h5 = h4 + encoded_owner(r.ref_id);
    let h6 = h5 + ",\"created_at\":"@ + decimal(r.created_at as int);
    assert(s.subrange(0, a) == h1);
    assert(s.subrange(0, b) == h2) by {
        lemma_adjoin(s, 0, a, b);
        lemma_append_field(h1, ",\"original_url\":\""@, escaped(r.original_url));
    }
    assert(s.subrange(0, c) == h3) by {
        lemma_adjoin(s, 0, b, c);
        lemma_append_field(h2, ",\"short_url\":\""@, escaped(r.short_url));
    }
    assert(s.subrange(0, d) == h4) by {
        lemma_adjoin(s, 0, c, d);
    }
    assert(s.subrange(0, e) == h5) by {
        lemma_adjoin(s, 0, d, e);
    }
    assert(s.subrange(0, f) == h6) by {
        lemma_adjoin(s, 0, e, f);
        assert(h5 + (",\"created_at\":"@ + decimal(r.created_at as int)) =~= h6);
    }
    f
}

/// A text is what stands before a position and what stands from it on.
proof fn lemma_whole(s: Seq<char>, f: int, head: Seq<char>, label: Seq<char>, number: Seq<char>, close: Seq<char>)
    requires
        0 <= f <= s.len(),
        s.subrange(0, f) == head,
    ensures
        s.skip(f) == label + number + close ==> s == head + label + number + close,
        s.skip(f) == close ==> s == head + close,
{
    assert(s =~= s.subrange(0, f) + s.skip(f));
    assert(head + (label + number + close) =~= head + label + number + close);
}

/// What reads as a record is a stored form of it: the one that the writer
/// produces or, for a record with no clicks, the one without the `clicks`
/// field. So no two records share a stored form.
pub proof fn lemma_decoded_is_canonical(s: Seq<char>)
    requires
        decoded(s) is Some,
    ensures
        s == encoded(decoded(s)->0) || (decoded(s)->0.clicks == 0 && s == encoded_without_clicks(decoded(s)->0)),
{
    let r = decoded(s)->0;
    let f = lemma_decoded_head(s);
    lemma_read_clicks_canonical(s, f);
    lemma_whole(s, f, encoded_head(r), ",\"clicks\":"@, digits(r.clicks as nat), "}"@);
}

/// A text reads as a record exactly when it is a stored form of that record,
/// and as nothing exactly when it is a stored form of no record.
pub proof fn lemma_decoded_iff_stored(s: Seq<char>)
    ensures
        decoded(s) matches Some(r) ==> is_stored_form(s, r),
        forall|r: RecordView| is_stored_form(s, r) ==> decoded(s) == Some(r),
{
    if decoded(s) is Some {
        lemma_decoded_is_canonical(s);
    }
    assert forall|r: RecordView| is_stored_form(s, r) implies decoded(s) == Some(r) by {
        if s == encoded(r) {
            lemma_decode_encoded(r);
        } else {
            lemma_decode_without_clicks(r);
        }
    }
}

} // verus!
