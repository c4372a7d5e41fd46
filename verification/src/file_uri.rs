//! `file:` URIs of the editor protocol and the local paths they name.
//!
//! Only `file:` URIs map to a path. Editors also send schemes that have no
//! filesystem location at all (`untitled:` for unsaved buffers,
//! `vscode-notebook-cell:` for notebook cells); those yield `None`, so that
//! callers treat the document as pathless rather than invent a path.
use vstd::prelude::*;
use vstd::utf8::*;

use crate::corrections::eq_ignore_ascii_case;
use crate::text::{chars_of, push_char, push_str};
use crate::tokenizer::lower_seq;

verus! {

/// The parts of a URI that a path is read from: its scheme, its authority
/// (host), and its path, each as written, escapes included.
pub struct UriParts {
    pub scheme: Option<String>,
    pub authority: Option<String>,
    pub path: String,
}

/// Scheme, authority and path of a URI as plain values.
pub type UriPartsView = (Option<Seq<char>>, Option<Seq<char>>, Seq<char>);

pub open spec fn opt_text(o: Option<String>) -> Option<Seq<char>> {
    match o {
        Some(s) => Some(s@),
        None => None,
    }
}

impl View for UriParts {
    type V = UriPartsView;

    open spec fn view(&self) -> UriPartsView {
        (opt_text(self.scheme), opt_text(self.authority), self.path@)
    }
}

/// The components of `text` as `lsp_types::Uri` parses it, or `None` where
/// `text` is no URI reference.
pub uninterp spec fn uri_components(text: Seq<char>) -> Option<UriPartsView>;

/// Parses `text` as an `lsp_types::Uri` (a `fluent_uri::Uri<String>`) and
/// reads its scheme, authority and path. What the parser accepts and how it
/// splits a URI is its own grammar; the contract only names the result.
#[verifier::external_body]
fn parse_components(text: &str) -> (r: Option<UriParts>)
    ensures
        match r {
            Some(p) => uri_components(text@) == Some(p@),
            None => uri_components(text@) is None,
        },
{
    match text.parse::<lsp_types::Uri>() {
        Ok(uri) => Some(UriParts {
            scheme: uri.scheme().map(|s| s.as_str().to_string()),
            authority: uri.authority().map(|a| a.as_str().to_string()),
            path: uri.path().as_str().to_string(),
        }),
        Err(_) => None,
    }
}

/// The value of an ASCII hexadecimal digit, or -1.
pub open spec fn hex_value(b: u8) -> int {
    if 0x30 <= b <= 0x39 {
        b - 0x30
    } else if 0x61 <= b <= 0x66 {
        b - 0x61 + 10
    } else if 0x41 <= b <= 0x46 {
        b - 0x41 + 10
    } else {
        -1
    }
}

/// Bytes with every `%` followed by two hexadecimal digits replaced by the
/// byte the digits spell; every other byte is kept.
pub open spec fn percent_decode_bytes(b: Seq<u8>) -> Seq<u8>
    decreases b.len(),
{
    if b.len() == 0 {
        Seq::empty()
    } else if b[0] == 0x25 && b.len() >= 3 && hex_value(b[1]) >= 0 && hex_value(b[2]) >= 0 {
        seq![(hex_value(b[1]) * 16 + hex_value(b[2])) as u8] + percent_decode_bytes(b.skip(3))
    } else {
        seq![b[0]] + percent_decode_bytes(b.skip(1))
    }
}

/// `text` percent-decoded, or `None` where the decoded bytes are no UTF-8.
pub open spec fn percent_decoded(text: Seq<char>) -> Option<Seq<char>> {
    let b = percent_decode_bytes(encode_utf8(text));
    if valid_utf8(b) {
        Some(decode_utf8(b))
    } else {
        None
    }
}

/// `percent_encoding::percent_decode_str(text).decode_utf8()`: every `%`
/// followed by two hexadecimal digits becomes the byte they spell, other
/// bytes pass through, and the result is an error where the bytes are not
/// UTF-8.
#[verifier::external_body]
fn decode(text: &str) -> (r: Option<String>)
    ensures
        opt_text(r) == percent_decoded(text@),
{
    match percent_encoding::percent_decode_str(text).decode_utf8() {
        Ok(s) => Some(s.into_owned()),
        Err(_) => None,
    }
}

pub open spec fn is_ascii_alpha(c: char) -> bool {
    ('a' <= c <= 'z') || ('A' <= c <= 'Z')
}

/// `file:///C:/dir` has the URI's leading `/` in front of the drive letter:
/// drop it before a letter and `:` (or the legacy `|`).
pub open spec fn spec_strip_drive_prefix(p: Seq<char>) -> Seq<char> {
    if p.len() >= 3 && p[0] == '/' && is_ascii_alpha(p[1]) && (p[2] == ':' || p[2] == '|') {
        p.skip(1)
    } else {
        p
    }
}

/// The path without the slash before a drive letter.
pub fn strip_drive_prefix(path: &str) -> (r: String)
    ensures
        r@ == spec_strip_drive_prefix(path@),
{
    let cs = chars_of(path);
    if cs.len() >= 3 && cs[0] == '/' && (('a' <= cs[1] && cs[1] <= 'z') || ('A' <= cs[1] && cs[1] <= 'Z'))
        && (cs[2] == ':' || cs[2] == '|') {
        let r = crate::text::string_from_range(cs.as_slice(), 1, cs.len());
        assert(cs@.subrange(1, cs@.len() as int) =~= path@.skip(1));
        r
    } else {
        crate::text::to_owned(path)
    }
}

pub open spec fn file_scheme() -> Seq<char> {
    seq!['f', 'i', 'l', 'e']
}

pub open spec fn localhost() -> Seq<char> {
    seq!['l', 'o', 'c', 'a', 'l', 'h', 'o', 's', 't']
}

/// The scheme is `file`, in any case.
pub open spec fn is_file_scheme(s: Option<Seq<char>>) -> bool {
    s is Some && lower_seq(s->0) == file_scheme()
}

/// No authority, an empty one, or `localhost` in any case.
pub open spec fn is_local_authority(a: Option<Seq<char>>) -> bool {
    match a {
        None => true,
        Some(t) => t.len() == 0 || lower_seq(t) == localhost(),
    }
}

/// The local path a URI names: only a `file:` URI with a local authority
/// whose path decodes to UTF-8 names one.
pub open spec fn spec_to_path(u: UriPartsView) -> Option<Seq<char>> {
    if !is_file_scheme(u.0) || !is_local_authority(u.1) {
        None
    } else {
        match percent_decoded(u.2) {
            Some(d) => Some(spec_strip_drive_prefix(d)),
            None => None,
        }
    }
}

/// Convert a `file:` URI to a local path.
///
/// Returns `None` for any other scheme, for a non-local authority
/// (`file://host/share`), and for percent-escapes that are not valid UTF-8.
pub fn to_path(uri: &UriParts) -> (r: Option<String>)
    ensures
        opt_text(r) == spec_to_path(uri@),
{
    proof {
        reveal_strlit("file");
        reveal_strlit("localhost");
    }
    let is_file = match &uri.scheme {
        Some(s) => eq_ignore_ascii_case(s.as_str(), "file"),
        None => false,
    };
    if !is_file {
        proof {
            if uri.scheme is Some {
                assert(lower_seq("file"@) =~= file_scheme());
            }
        }
        return None;
    }
    assert(lower_seq("file"@) =~= file_scheme());
    assert(lower_seq("localhost"@) =~= localhost());
    let is_local = match &uri.authority {
        Some(a) => a.as_str().is_empty() || eq_ignore_ascii_case(a.as_str(), "localhost"),
        None => true,
    };
    let decoded = decode(uri.path.as_str());
    match decoded {
        None => None,
        Some(d) => {
            if !is_local {
                None
            } else {
                Some(strip_drive_prefix(d.as_str()))
            }
        },
    }
}

/// The local path of the URI `text`, if `text` parses as a URI that names
/// one.
pub fn path_of_uri(text: &str) -> (r: Option<String>)
    ensures
        opt_text(r) == match uri_components(text@) {
            Some(u) => spec_to_path(u),
            None => None,
        },
{
    match parse_components(text) {
        Some(u) => to_path(&u),
        None => None,
    }
}

/// Whether a path segment keeps byte `b` escaped in a URI: non-ASCII bytes,
/// controls, and the characters with a meaning in a URI reference, `%`
/// included, so that the result decodes back to the path. `/` is kept: it
/// separates the segments.
pub open spec fn escaped_byte(b: u8) -> bool {
    b >= 0x80 || b < 0x20 || b == 0x7f || b == 0x20 || b == 0x22 || b == 0x23 || b == 0x25
        || b == 0x3c || b == 0x3e || b == 0x3f || b == 0x5b || b == 0x5d || b == 0x5e || b == 0x60
        || b == 0x7b || b == 0x7c || b == 0x7d
}

pub open spec fn hex_digits() -> Seq<char> {
    seq!['0', '1', '2', '3', '4', '5', '6', '7', '8', '9', 'A', 'B', 'C', 'D', 'E', 'F']
}

/// `%` and the two uppercase hexadecimal digits of `b`.
pub open spec fn percent_byte(b: u8) -> Seq<char> {
    seq!['%', hex_digits()[(b / 16) as int], hex_digits()[(b % 16) as int]]
}

/// `percent_encoding::percent_encode_byte`: `%` and the two uppercase
/// hexadecimal digits of the byte.
#[verifier::external_body]
fn percent_byte_str(b: u8) -> (r: &'static str)
    ensures
        r@ == percent_byte(b),
{
    percent_encoding::percent_encode_byte(b)
}

/// Bytes percent-encoded: each escaped byte as `%XX`, every other (ASCII)
/// byte as its character.
pub open spec fn percent_encode_bytes(b: Seq<u8>) -> Seq<char>
    decreases b.len(),
{
    if b.len() == 0 {
        Seq::empty()
    } else {
        percent_encode_bytes(b.drop_last()) + if escaped_byte(b.last()) {
            percent_byte(b.last())
        } else {
            seq![b.last() as char]
        }
    }
}

/// The UTF-8 bytes of `text`, percent-encoded.
fn encode_text(text: &str) -> (r: String)
    ensures
        r@ == percent_encode_bytes(encode_utf8(text@)),
{
    let bytes = text.as_bytes();
    let mut r = String::new();
    let mut i: usize = 0;
    while i < bytes.len()
        invariant
            bytes@ == encode_utf8(text@),
            0 <= i <= bytes@.len(),
            r@ == percent_encode_bytes(bytes@.take(i as int)),
        decreases bytes@.len() - i,
    {
        let b = bytes[i];
        let ghost t = bytes@.take(i + 1);
        assert(t.drop_last() =~= bytes@.take(i as int));
        assert(t.last() == b);
        if b >= 0x80 || b < 0x20 || b == 0x7f || b == 0x20 || b == 0x22 || b == 0x23 || b == 0x25
            || b == 0x3c || b == 0x3e || b == 0x3f || b == 0x5b || b == 0x5d || b == 0x5e
            || b == 0x60 || b == 0x7b || b == 0x7c || b == 0x7d {
            push_str(&mut r, percent_byte_str(b));
        } else {
            push_char(&mut r, b as char);
        }
        i += 1;
    }
    assert(bytes@.take(bytes@.len() as int) =~= bytes@);
    r
}

/// Backslashes turned into slashes: Windows paths are
/// backslash-separated, URI paths use `/`.
pub open spec fn forward_slashes(s: Seq<char>) -> Seq<char> {
    s.map_values(|c: char| if c == '\\' { '/' } else { c })
}

/// A path split into the authority of a URI and the rest: a UNC path
/// `//host/rest` has `host` as authority, any other path none.
pub open spec fn split_unc(t: Seq<char>) -> (Seq<char>, Seq<char>) {
    if t.len() >= 2 && t[0] == '/' && t[1] == '/' {
        let unc = t.skip(2);
        let i = crate::text::find_char_from(unc, '/', 0);
        if i < unc.len() {
            (unc.take(i), unc.skip(i))
        } else {
            (unc, seq!['/'])
        }
    } else {
        (Seq::empty(), t)
    }
}

/// A URI path always starts with `/`.
pub open spec fn rooted(s: Seq<char>) -> Seq<char> {
    if s.len() > 0 && s[0] == '/' {
        s
    } else {
        seq!['/'] + s
    }
}

pub open spec fn file_uri_prefix() -> Seq<char> {
    seq!['f', 'i', 'l', 'e', ':', '/', '/']
}

/// The text of the `file:` URI of `path`: `file://`, the authority, and the
/// rooted path with every escaped byte percent-encoded.
pub open spec fn spec_uri_text(path: Seq<char>) -> Seq<char> {
    let (a, r) = split_unc(forward_slashes(path));
    file_uri_prefix() + a + percent_encode_bytes(encode_utf8(rooted(r)))
}

/// The text of the `file:` URI of an absolute path.
pub fn uri_text_of_path(path: &str) -> (r: String)
    ensures
        r@ == spec_uri_text(path@),
{
    let cs = chars_of(path);
    let mut t: Vec<char> = Vec::new();
    let mut i: usize = 0;
    while i < cs.len()
        invariant
            cs@ == path@,
            0 <= i <= cs@.len(),
            t@ == forward_slashes(cs@.take(i as int)),
        decreases cs@.len() - i,
    {
        let c = cs[i];
        t.push(if c == '\\' { '/' } else { c });
        assert(forward_slashes(cs@.take(i + 1)) =~= forward_slashes(cs@.take(i as int)).push(
            if c == '\\' { '/' } else { c },
        ));
        i += 1;
    }
    assert(cs@.take(cs@.len() as int) =~= cs@);
    let ghost ft = t@;
    let n = t.len();
    let mut auth = String::new();
    let mut rest = String::new();
    if n >= 2 && t[0] == '/' && t[1] == '/' {
        let k = crate::text::find_char(t.as_slice(), '/', 2, n);
        proof {
            let unc = ft.skip(2);
            assert(ft.subrange(2, n as int) =~= unc);
            crate::text::lemma_find_char_from(unc, '/', 0);
        }
        if k < n {
            auth = crate::text::string_from_range(t.as_slice(), 2, k);
            rest = crate::text::string_from_range(t.as_slice(), k, n);
            assert(auth@ =~= ft.skip(2).take(k - 2));
            assert(rest@ =~= ft.skip(2).skip(k - 2));
        } else {
            auth = crate::text::string_from_range(t.as_slice(), 2, n);
            push_char(&mut rest, '/');
            assert(auth@ =~= ft.skip(2));
            assert(rest@ =~= seq!['/']);
        }
    } else {
        rest = crate::text::string_from_chars(t.as_slice());
        assert(auth@ =~= Seq::<char>::empty());
    }
    let rs = chars_of(rest.as_str());
    let rooted_path = if rs.len() > 0 && rs[0] == '/' {
        rest
    } else {
        let mut p = String::new();
        push_char(&mut p, '/');
        push_str(&mut p, rest.as_str());
        assert(p@ =~= seq!['/'] + rest@);
        p
    };
    let enc = encode_text(rooted_path.as_str());
    let mut out = String::new();
    push_str(&mut out, "file://");
    push_str(&mut out, auth.as_str());
    push_str(&mut out, enc.as_str());
    proof {
        reveal_strlit("file://");
        assert(out@ =~= file_uri_prefix() + auth@ + enc@);
    }
    out
}

/// Build a `file:` URI for `path`, which must be absolute. What counts as
/// absolute depends on the platform, so only what holds of a built URI is
/// stated: it is the text of `path`'s URI, and it parses.
pub fn from_path(path: &str) -> (r: Option<String>)
    ensures
        r is Some ==> r->0@ == spec_uri_text(path@) && uri_components(r->0@) is Some,
{
    if !crate::text::is_absolute_path(path) {
        return None;
    }
    let text = uri_text_of_path(path);
    match parse_components(text.as_str()) {
        Some(_) => Some(text),
        None => None,
    }
}

/// A URI text ending with `/`.
pub open spec fn with_trailing_slash(t: Seq<char>) -> Seq<char> {
    if t.len() > 0 && t.last() == '/' {
        t
    } else {
        t.push('/')
    }
}

/// Build a `file:` URI for a directory, with the trailing slash that
/// editors use for workspace folders.
pub fn from_directory_path(path: &str) -> (r: Option<String>)
    ensures
        r is Some ==> r->0@ == with_trailing_slash(spec_uri_text(path@)) && uri_components(r->0@) is Some,
{
    let uri = match from_path(path) {
        Some(u) => u,
        None => return None,
    };
    let cs = chars_of(uri.as_str());
    if cs.len() > 0 && cs[cs.len() - 1] == '/' {
        return Some(uri);
    }
    let mut text = uri;
    push_char(&mut text, '/');
    match parse_components(text.as_str()) {
        Some(_) => Some(text),
        None => None,
    }
}

} // verus!
