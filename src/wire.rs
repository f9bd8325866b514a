use vstd::prelude::*;
use vstd::string::StringSliceAdditionalSpecFns;

verus! {

/// What stripping terminal escape sequences leaves of `b`.
pub uninterp spec fn ansi_stripped(b: Seq<u8>) -> Seq<u8>;

/// The text that `b` encodes in UTF-8, if it is valid UTF-8.
pub uninterp spec fn utf8_text(b: Seq<u8>) -> Option<Seq<char>>;

/// `s` without leading and trailing whitespace.
pub uninterp spec fn trimmed(s: Seq<char>) -> Seq<char>;

/// `s` with every line feed taken out.
pub open spec fn without_newlines(s: Seq<char>) -> Seq<char> {
    s.filter(|c: char| c != '\n')
}

/// A received block as the dispatcher gets it: escapes stripped, decoded, trimmed,
/// line feeds taken out; nothing when the bytes are not UTF-8.
pub open spec fn cleaned(b: Seq<u8>) -> Option<Seq<char>> {
    match utf8_text(ansi_stripped(b)) {
        Some(t) => Some(without_newlines(trimmed(t))),
        None => None,
    }
}

/// Relies on strip_ansi_escapes::strip: the bytes of `b` with escape sequences removed.
#[verifier::external_body]
fn strip_escapes(b: &Vec<u8>) -> (r: Vec<u8>)
    ensures
        r@ == ansi_stripped(b@),
{
    strip_ansi_escapes::strip(b)
}

/// Relies on std's `String::from_utf8`: the text when the bytes are valid UTF-8.
#[verifier::external_body]
fn decode_utf8(b: Vec<u8>) -> (r: Option<String>)
    ensures
        match r {
            Some(s) => utf8_text(b@) == Some(s@),
            None => utf8_text(b@) is None,
        },
{
    String::from_utf8(b).ok()
}

/// Relies on std's `str::trim`.
#[verifier::external_body]
fn trim_text(s: &str) -> (r: String)
    ensures
        r@ == trimmed(s@),
{
    s.trim().to_string()
}

/// Relies on std's `str::replace`, here of each line feed by nothing.
#[verifier::external_body]
fn remove_newlines(s: &str) -> (r: String)
    ensures
        r@ == without_newlines(s@),
{
    s.replace('\n', "")
}

/// Turns a block read from a connection into the line it carries.
pub fn clean_input(buf: &Vec<u8>) -> (r: Option<String>)
    ensures
        match r {
            Some(s) => cleaned(buf@) == Some(s@),
            None => cleaned(buf@) is None,
        },
{
    let stripped = strip_escapes(buf);
    match decode_utf8(stripped) {
        None => None,
        Some(text) => {
            let t = trim_text(text.as_str());
            Some(remove_newlines(t.as_str()))
        },
    }
}

/// Appends the bytes of `data` to what is to be written to a connection.
pub fn send(out: &mut Vec<u8>, data: &str)
    ensures
        final(out)@ == old(out)@ + data.spec_bytes(),
{
    let bytes = data.as_bytes();
    let ghost start = out@;
    let mut i: usize = 0;
    while i < bytes.len()
        invariant
            i <= bytes@.len(),
            bytes@ == data.spec_bytes(),
            out@ == start + bytes@.subrange(0, i as int),
        decreases bytes@.len() - i,
    {
        out.push(bytes[i]);
        proof {
            assert(start + bytes@.subrange(0, i + 1) =~= (start + bytes@.subrange(0, i as int)).push(bytes@[i as int]));
        }
        i = i + 1;
    }
    assert(bytes@.subrange(0, i as int) =~= bytes@);
}

} // verus!
