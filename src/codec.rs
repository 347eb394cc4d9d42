//! Text handling for the on-disk plugin lists: line splitting, Windows-1252
//! and UTF-8 decoding, and strict Windows-1252 encoding.

use crate::enums::Error;
use vstd::prelude::*;
use vstd::utf8::{decode_utf8, valid_utf8};

verus! {

/// What Windows-1252 decoding (no BOM handling, no replacement) makes of bytes;
/// `None` where a byte sequence is unmapped.
pub uninterp spec fn windows_1252_decoding(b: Seq<u8>) -> Option<Seq<char>>;

/// What Windows-1252 encoding makes of a text; `None` where a character has no
/// Windows-1252 code point.
pub uninterp spec fn windows_1252_encoding(s: Seq<char>) -> Option<Seq<u8>>;

/// Relies on encoding_rs's `Encoding::decode_without_bom_handling_and_without_replacement`
/// for WINDOWS_1252: the decoded text, or `None` on an unmapped sequence.
#[verifier::external_body]
fn decode_windows_1252(b: &[u8]) -> (r: Option<String>)
    ensures
        match r {
            Some(s) => windows_1252_decoding(b@) == Some(s@),
            None => windows_1252_decoding(b@) is None,
        },
{
    match encoding_rs::WINDOWS_1252.decode_without_bom_handling_and_without_replacement(b) {
        Some(text) => Some(text.into_owned()),
        None => None,
    }
}

/// Relies on encoding_rs's `Encoding::encode` for WINDOWS_1252: the encoded
/// bytes, or `None` where it reports an unmappable character.
#[verifier::external_body]
fn encode_windows_1252(s: &str) -> (r: Option<Vec<u8>>)
    ensures
        match r {
            Some(b) => windows_1252_encoding(s@) == Some(b@),
            None => windows_1252_encoding(s@) is None,
        },
{
    let (bytes, _, had_errors) = encoding_rs::WINDOWS_1252.encode(s);
    if had_errors {
        None
    } else {
        Some(bytes.into_owned())
    }
}

/// Relies on `std::str::from_utf8`: it accepts exactly the valid UTF-8 byte
/// sequences, and the text it gives is their decoding.
#[verifier::external_body]
fn decode_utf8_text(b: &[u8]) -> (r: Option<String>)
    ensures
        r is Some <==> valid_utf8(b@),
        r matches Some(s) ==> s@ == decode_utf8(b@),
{
    match std::str::from_utf8(b) {
        Ok(s) => Some(s.to_owned()),
        Err(_) => None,
    }
}

pub open spec fn strip_cr(l: Seq<u8>) -> Seq<u8> {
    if l.len() > 0 && l.last() == 13u8 {
        l.drop_last()
    } else {
        l
    }
}

/// The lines of `b`, given that `cur` is the unfinished line before it.
pub open spec fn lines_from(b: Seq<u8>, cur: Seq<u8>) -> Seq<Seq<u8>>
    decreases b.len(),
{
    if b.len() == 0 {
        if cur.len() == 0 {
            seq![]
        } else {
            seq![cur]
        }
    } else if b[0] == 10u8 {
        seq![strip_cr(cur)] + lines_from(b.drop_first(), seq![])
    } else {
        lines_from(b.drop_first(), cur.push(b[0]))
    }
}

/// The lines of a text: split at `\n`, a `\r` before the `\n` dropped, and no
/// empty line after a final `\n`.
pub open spec fn text_lines(b: Seq<u8>) -> Seq<Seq<u8>> {
    lines_from(b, seq![])
}

pub open spec fn byte_views(v: Seq<Vec<u8>>) -> Seq<Seq<u8>> {
    v.map_values(|l: Vec<u8>| l@)
}

pub open spec fn string_views(v: Seq<String>) -> Seq<Seq<char>> {
    v.map_values(|s: String| s@)
}

/// Splits bytes into lines as `text_lines` describes.
pub fn split_lines(content: &[u8]) -> (r: Vec<Vec<u8>>)
    ensures
        byte_views(r@) == text_lines(content@),
{
    let mut out: Vec<Vec<u8>> = Vec::new();
    let mut cur: Vec<u8> = Vec::new();
    let mut i: usize = 0;
    proof {
        assert(content@.subrange(0, content@.len() as int) =~= content@);
        assert(byte_views(out@) =~= seq![]);
    }
    while i < content.len()
        invariant
            i <= content@.len(),
            byte_views(out@) + lines_from(content@.subrange(i as int, content@.len() as int), cur@)
                == text_lines(content@),
        decreases content@.len() - i,
    {
        let ghost rest = content@.subrange(i as int, content@.len() as int);
        let ghost old_out = out@;
        let ghost old_cur = cur@;
        assert(rest.drop_first() =~= content@.subrange(i + 1, content@.len() as int));
        assert(rest[0] == content@[i as int]);
        let b = content[i];
        if b == 10u8 {
            let mut line = cur;
            if line.len() > 0 && line[line.len() - 1] == 13u8 {
                line.pop();
                assert(line@ =~= strip_cr(old_cur));
            }
            out.push(line);
            cur = Vec::new();
            assert(byte_views(out@) =~= byte_views(old_out) + seq![strip_cr(old_cur)]);
            assert(cur@ =~= seq![]);
        } else {
            cur.push(b);
        }
        i = i + 1;
    }
    proof {
        let rest = content@.subrange(i as int, content@.len() as int);
        assert(rest.len() == 0);
    }
    if cur.len() > 0 {
        let ghost old_out = out@;
        let ghost c = cur@;
        out.push(cur);
        assert(byte_views(out@) =~= byte_views(old_out) + seq![c]);
    } else {
        assert(byte_views(out@) + seq![] =~= byte_views(out@));
    }
    out
}

/// Every line decodes as Windows-1252.
pub open spec fn all_decode_1252(ls: Seq<Seq<u8>>) -> bool {
    forall|i: int| 0 <= i < ls.len() ==> (#[trigger] windows_1252_decoding(ls[i])) is Some
}

/// Every line is valid UTF-8.
pub open spec fn all_valid_utf8(ls: Seq<Seq<u8>>) -> bool {
    forall|i: int| 0 <= i < ls.len() ==> #[trigger] valid_utf8(ls[i])
}

pub open spec fn decoded_1252_lines(ls: Seq<Seq<u8>>) -> Seq<Seq<char>> {
    ls.map_values(|l: Seq<u8>| windows_1252_decoding(l)->Some_0)
}

pub open spec fn decoded_utf8_lines(ls: Seq<Seq<u8>>) -> Seq<Seq<char>> {
    ls.map_values(|l: Seq<u8>| decode_utf8(l))
}

/// The lines of a text file decoded from Windows-1252.
pub fn read_lines_windows_1252(content: &[u8]) -> (r: Result<Vec<String>, Error>)
    ensures
        r is Ok <==> all_decode_1252(text_lines(content@)),
        r matches Ok(v) ==> string_views(v@) == decoded_1252_lines(text_lines(content@)),
        r matches Err(e) ==> e is DecodeError,
{
    let lines = split_lines(content);
    let ghost ls = text_lines(content@);
    let mut out: Vec<String> = Vec::new();
    let mut i: usize = 0;
    while i < lines.len()
        invariant
            byte_views(lines@) == ls,
            ls == text_lines(content@),
            ls.len() == lines@.len(),
            i <= lines@.len(),
            forall|j: int| 0 <= j < i ==> (#[trigger] windows_1252_decoding(ls[j])) is Some,
            string_views(out@) =~= decoded_1252_lines(ls).take(i as int),
        decreases lines@.len() - i,
    {
        assert(ls[i as int] == lines@[i as int]@);
        match decode_windows_1252(lines[i].as_slice()) {
            Some(text) => {
                let ghost old_out = out@;
                out.push(text);
                assert(decoded_1252_lines(ls)[i as int] == text@);
                assert(string_views(out@) =~= string_views(old_out).push(text@));
                assert(string_views(out@) =~= decoded_1252_lines(ls).take(i + 1));
            },
            None => {
                return Err(Error::DecodeError(String::from_str("invalid sequence")));
            },
        }
        i = i + 1;
    }
    assert(decoded_1252_lines(ls).take(i as int) =~= decoded_1252_lines(ls));
    Ok(out)
}

/// The lines of a text file decoded from UTF-8.
pub fn read_lines_utf8(content: &[u8]) -> (r: Result<Vec<String>, Error>)
    ensures
        r is Ok <==> all_valid_utf8(text_lines(content@)),
        r matches Ok(v) ==> string_views(v@) == decoded_utf8_lines(text_lines(content@)),
        r matches Err(e) ==> e is NotUtf8,
{
    let lines = split_lines(content);
    let ghost ls = text_lines(content@);
    let mut out: Vec<String> = Vec::new();
    let mut i: usize = 0;
    while i < lines.len()
        invariant
            byte_views(lines@) == ls,
            ls == text_lines(content@),
            ls.len() == lines@.len(),
            i <= lines@.len(),
            forall|j: int| 0 <= j < i ==> #[trigger] valid_utf8(ls[j]),
            string_views(out@) =~= decoded_utf8_lines(ls).take(i as int),
        decreases lines@.len() - i,
    {
        assert(ls[i as int] == lines@[i as int]@);
        match decode_utf8_text(lines[i].as_slice()) {
            Some(text) => {
                let ghost old_out = out@;
                out.push(text);
                assert(decoded_utf8_lines(ls)[i as int] == text@);
                assert(string_views(out@) =~= string_views(old_out).push(text@));
                assert(string_views(out@) =~= decoded_utf8_lines(ls).take(i + 1));
            },
            None => {
                return Err(Error::NotUtf8(lines[i].clone()));
            },
        }
        i = i + 1;
    }
    assert(decoded_utf8_lines(ls).take(i as int) =~= decoded_utf8_lines(ls));
    Ok(out)
}

/// A line names a plugin unless it is empty or a `#` comment.
pub open spec fn is_plugin_line(l: Seq<char>) -> bool {
    l.len() > 0 && l[0] != '#'
}

/// The lines of `ls` that name plugins, in order.
pub open spec fn plugin_lines(ls: Seq<Seq<char>>) -> Seq<Seq<char>>
    decreases ls.len(),
{
    if ls.len() == 0 {
        seq![]
    } else if is_plugin_line(ls.last()) {
        plugin_lines(ls.drop_last()).push(ls.last())
    } else {
        plugin_lines(ls.drop_last())
    }
}

/// The plugin name on a line, if the line holds one.
pub fn plugin_line_mapper(line: &str) -> (r: Option<String>)
    ensures
        r is Some <==> is_plugin_line(line@),
        r matches Some(s) ==> s@ == line@,
{
    if line.is_empty() || line.get_char(0) == '#' {
        None
    } else {
        Some(line.to_owned())
    }
}

/// The plugin names on the given lines.
pub fn plugin_names_of_lines(lines: &Vec<String>) -> (r: Vec<String>)
    ensures
        string_views(r@) == plugin_lines(string_views(lines@)),
{
    let ghost ls = string_views(lines@);
    let mut out: Vec<String> = Vec::new();
    let mut i: usize = 0;
    while i < lines.len()
        invariant
            ls == string_views(lines@),
            i <= lines@.len(),
            string_views(out@) == plugin_lines(ls.take(i as int)),
        decreases lines@.len() - i,
    {
        assert(ls.take(i + 1).drop_last() =~= ls.take(i as int));
        assert(ls.take(i + 1).last() == lines@[i as int]@);
        match plugin_line_mapper(lines[i].as_str()) {
            Some(name) => {
                let ghost old_out = out@;
                out.push(name);
                assert(string_views(out@) =~= string_views(old_out).push(name@));
            },
            None => {},
        }
        i = i + 1;
    }
    assert(ls.take(i as int) =~= ls);
    out
}

/// The plugin names listed in a Windows-1252 text file; an absent file lists none.
pub fn read_plugin_names(content: Option<&[u8]>) -> (r: Result<Vec<String>, Error>)
    ensures
        match content {
            None => r matches Ok(v) && v@.len() == 0,
            Some(c) => {
                &&& r is Ok <==> all_decode_1252(text_lines(c@))
                &&& r matches Ok(v) ==> string_views(v@) == plugin_lines(
                    decoded_1252_lines(text_lines(c@)),
                )
                &&& r matches Err(e) ==> e is DecodeError
            },
        },
{
    match content {
        None => Ok(Vec::new()),
        Some(c) => {
            let lines = read_lines_windows_1252(c)?;
            Ok(plugin_names_of_lines(&lines))
        },
    }
}

/// The plugin names listed in a UTF-8 text file; an absent file lists none.
pub fn read_utf8_plugin_names(content: Option<&[u8]>) -> (r: Result<Vec<String>, Error>)
    ensures
        match content {
            None => r matches Ok(v) && v@.len() == 0,
            Some(c) => {
                &&& r is Ok <==> all_valid_utf8(text_lines(c@))
                &&& r matches Ok(v) ==> string_views(v@) == plugin_lines(
                    decoded_utf8_lines(text_lines(c@)),
                )
                &&& r matches Err(e) ==> e is NotUtf8
            },
        },
{
    match content {
        None => Ok(Vec::new()),
        Some(c) => {
            let lines = read_lines_utf8(c)?;
            Ok(plugin_names_of_lines(&lines))
        },
    }
}

/// The bytes that strict Windows-1252 encoding gives: the encoding must map
/// every character, and the text may hold no NUL.
pub open spec fn strict_encoding(s: Seq<char>) -> Option<Seq<u8>> {
    match windows_1252_encoding(s) {
        Some(b) => if b.contains(0u8) {
            None
        } else {
            Some(b)
        },
        None => None,
    }
}

/// Encodes a text as Windows-1252, failing on any character that has no
/// Windows-1252 code point and on NUL.
pub fn strict_encode(s: &str) -> (r: Result<Vec<u8>, Error>)
    ensures
        match r {
            Ok(b) => strict_encoding(s@) == Some(b@),
            Err(e) => strict_encoding(s@) is None && (e matches Error::EncodeError(m) && m@ == "unrepresentable character"@),
        },
{
    match encode_windows_1252(s) {
        Some(bytes) => {
            assert(windows_1252_encoding(s@) == Some(bytes@));
            let mut i: usize = 0;
            while i < bytes.len()
                invariant
                    i <= bytes@.len(),
                    windows_1252_encoding(s@) == Some(bytes@),
                    forall|j: int| 0 <= j < i ==> bytes@[j] != 0u8,
                decreases bytes@.len() - i,
            {
                if bytes[i] == 0u8 {
                    assert(bytes@.contains(0u8)) by {
                        assert(bytes@[i as int] == 0u8);
                    }
                    assert(strict_encoding(s@) is None);
                    return Err(Error::EncodeError(String::from_str("unrepresentable character")));
                }
                i = i + 1;
            }
            assert(!bytes@.contains(0u8));
            Ok(bytes)
        },
        None => Err(Error::EncodeError(String::from_str("unrepresentable character"))),
    }
}

} // verus!
