use vstd::prelude::*;
use vstd::string::*;
use crate::event::PhEvent;

verus! {

/// Whether a text is one well-formed JSON value. The result of the parser
/// this library relies on; it depends on the characters alone.
pub uninterp spec fn is_json_text(s: Seq<char>) -> bool;

/// Relies on serde_json::from_str::<serde_json::Value>: parsing is a
/// deterministic function of the input text, and it succeeds exactly on
/// well-formed JSON values.
#[verifier::external_body]
pub fn check_json_text(s: &str) -> (r: bool)
    ensures
        r == is_json_text(s@),
{
    serde_json::from_str::<serde_json::Value>(s).is_ok()
}

/// Relies on String::push: appends exactly the given character at the end.
#[verifier::external_body]
fn push_char(out: &mut String, c: char)
    ensures
        final(out)@ == old(out)@ + seq![c],
{
    out.push(c);
}

/// The hexadecimal digit for a nibble value.
pub open spec fn hex_char(n: int) -> char {
    if n == 0 { '0' } else if n == 1 { '1' } else if n == 2 { '2' } else if n == 3 { '3' }
    else if n == 4 { '4' } else if n == 5 { '5' } else if n == 6 { '6' } else if n == 7 { '7' }
    else if n == 8 { '8' } else if n == 9 { '9' } else if n == 10 { 'a' } else if n == 11 { 'b' }
    else if n == 12 { 'c' } else if n == 13 { 'd' } else if n == 14 { 'e' } else { 'f' }
}

fn hex_char_of(n: u32) -> (c: char)
    requires
        n < 16,
    ensures
        c == hex_char(n as int),
{
    if n == 0 { '0' } else if n == 1 { '1' } else if n == 2 { '2' } else if n == 3 { '3' }
    else if n == 4 { '4' } else if n == 5 { '5' } else if n == 6 { '6' } else if n == 7 { '7' }
    else if n == 8 { '8' } else if n == 9 { '9' } else if n == 10 { 'a' } else if n == 11 { 'b' }
    else if n == 12 { 'c' } else if n == 13 { 'd' } else if n == 14 { 'e' } else { 'f' }
}

/// How one character appears inside a JSON string literal: quotes and
/// backslashes get a backslash escape, control characters a \u escape,
/// everything else stands as it is.
pub open spec fn escape_char(c: char) -> Seq<char> {
    if c == '"' {
        "\\\""@
    } else if c == '\\' {
        "\\\\"@
    } else if (c as u32) < 32 {
        "\\u00"@ + seq![hex_char((c as u32) as int / 16), hex_char((c as u32) as int % 16)]
    } else {
        seq![c]
    }
}

/// A whole text escaped for use inside a JSON string literal.
pub open spec fn escape_seq(s: Seq<char>) -> Seq<char>
    decreases s.len(),
{
    if s.len() == 0 {
        Seq::empty()
    } else {
        escape_seq(s.drop_last()) + escape_char(s.last())
    }
}

/// Appends the JSON-escaped form of `s` to `out`.
pub fn escape_append(out: &mut String, s: &str)
    ensures
        final(out)@ == old(out)@ + escape_seq(s@),
{
    let ghost orig = out@;
    let n = s.unicode_len();
    let mut i: usize = 0;
    while i < n
        invariant
            n == s@.len(),
            i <= n,
            out@ == orig + escape_seq(s@.take(i as int)),
        decreases n - i,
    {
        let c = s.get_char(i);
        if c == '"' {
            out.append("\\\"");
        } else if c == '\\' {
            out.append("\\\\");
        } else if (c as u32) < 32 {
            out.append("\\u00");
            let v = c as u32;
            push_char(out, hex_char_of(v / 16));
            push_char(out, hex_char_of(v % 16));
            proof {
                assert(out@ =~= orig + escape_seq(s@.take(i as int)) + escape_char(c));
            }
        } else {
            push_char(out, c);
        }
        proof {
            assert(s@.take(i as int + 1).drop_last() =~= s@.take(i as int));
            assert(s@.take(i as int + 1).last() == s@[i as int]);
            assert(out@ =~= orig + escape_seq(s@.take(i as int + 1)));
        }
        i += 1;
    }
    proof {
        assert(s@.take(n as int) =~= s@);
    }
}

/// The timestamp member of the wire form of one event, empty when the event
/// carries no timestamp.
pub open spec fn timestamp_part(ts: Option<String>) -> Seq<char> {
    match ts {
        Option::None => Seq::empty(),
        Option::Some(t) => ",\"timestamp\":\""@ + escape_seq(t@) + "\""@,
    }
}

/// The wire form of one event: a JSON object with the event name, the
/// property map spliced verbatim, and the optional client timestamp.
pub open spec fn wire_event_text(e: PhEvent) -> Seq<char> {
    "{\"event\":\""@ + escape_seq(e.event@) + "\",\"properties\":"@ + e.properties@
        + timestamp_part(e.timestamp) + "}"@
}

/// An event can be put on the wire exactly when its property text is one
/// well-formed JSON value; an event that cannot is dropped, never stored.
pub open spec fn serializable(e: PhEvent) -> bool {
    is_json_text(e.properties@)
}

/// Serializes one event for the wire and for the durable queue. Returns
/// `None` exactly when the event's property text is not well-formed JSON.
pub fn wire_event(e: &PhEvent) -> (r: Option<String>)
    ensures
        r is Some <==> serializable(*e),
        r is Some ==> r.unwrap()@ == wire_event_text(*e),
{
    if !check_json_text(self_str(&e.properties)) {
        return Option::None;
    }
    let mut out = String::new();
    out.append("{\"event\":\"");
    escape_append(&mut out, self_str(&e.event));
    out.append("\",\"properties\":");
    out.append(self_str(&e.properties));
    match &e.timestamp {
        Option::None => {},
        Option::Some(t) => {
            out.append(",\"timestamp\":\"");
            escape_append(&mut out, self_str(t));
            out.append("\"");
        },
    }
    out.append("}");
    proof {
        assert(out@ =~= wire_event_text(*e));
    }
    Option::Some(out)
}

/// A borrowed view of a `String` as `&str`.
fn self_str(s: &String) -> (r: &str)
    ensures
        r@ == s@,
{
    s.as_str()
}

/// The wire texts of a batch's serializable events, in batch order; an event
/// that cannot be serialized contributes nothing.
pub open spec fn wire_texts(evs: Seq<PhEvent>) -> Seq<Seq<char>>
    decreases evs.len(),
{
    if evs.len() == 0 {
        Seq::empty()
    } else if serializable(evs.last()) {
        wire_texts(evs.drop_last()).push(wire_event_text(evs.last()))
    } else {
        wire_texts(evs.drop_last())
    }
}

/// Event texts joined with commas, as they stand inside the batch array.
pub open spec fn joined(texts: Seq<Seq<char>>) -> Seq<char>
    decreases texts.len(),
{
    if texts.len() == 0 {
        Seq::empty()
    } else if texts.len() == 1 {
        texts[0]
    } else {
        joined(texts.drop_last()) + ","@ + texts.last()
    }
}

/// The wire form of one delivery: a JSON object holding the credential and
/// the full event list under the batch key.
pub open spec fn batch_body_text(api_key: Seq<char>, texts: Seq<Seq<char>>) -> Seq<char> {
    "{\"api_key\":\""@ + escape_seq(api_key) + "\",\"batch\":["@ + joined(texts) + "]}"@
}

/// The texts a vector of strings holds, as one sequence of views.
pub open spec fn string_views(ts: Seq<String>) -> Seq<Seq<char>> {
    Seq::new(ts.len(), |k: int| ts[k]@)
}

/// Builds the body of one delivery from the credential and the wire forms of
/// the events it carries.
pub fn batch_body(api_key: &str, texts: &Vec<String>) -> (r: String)
    ensures
        r@ == batch_body_text(api_key@, string_views(texts@)),
{
    let ghost mapped = string_views(texts@);
    let mut out = String::new();
    out.append("{\"api_key\":\"");
    escape_append(&mut out, api_key);
    out.append("\",\"batch\":[");
    let ghost mid = out@;
    let mut i: usize = 0;
    while i < texts.len()
        invariant
            mapped == string_views(texts@),
            i <= texts@.len(),
            mid == "{\"api_key\":\""@ + escape_seq(api_key@) + "\",\"batch\":["@,
            out@ == mid + joined(mapped.take(i as int)),
        decreases texts@.len() - i,
    {
        if i > 0 {
            out.append(",");
        }
        out.append(self_str(&texts[i]));
        proof {
            assert(mapped.take(i as int + 1).drop_last() =~= mapped.take(i as int));
            assert(mapped.take(i as int + 1).last() == mapped[i as int]);
            assert(mapped[i as int] == texts@[i as int]@);
            assert(out@ =~= mid + joined(mapped.take(i as int + 1)));
        }
        i += 1;
    }
    proof {
        assert(mapped.take(texts@.len() as int) =~= mapped);
    }
    out.append("]}");
    proof {
        assert(out@ =~= batch_body_text(api_key@, mapped));
    }
    out
}

} // verus!
