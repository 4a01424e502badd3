use vstd::prelude::*;

use crate::models::SerializableContentItems;

verus! {

#[verifier::external_type_specification]
#[verifier::external_body]
pub struct ExDecodeError(base64::DecodeError);

#[verifier::external_type_specification]
#[verifier::external_body]
pub struct ExFromUtf8Error(std::string::FromUtf8Error);

/// `s` without any occurrence of `c`, the other characters in order.
pub open spec fn remove_char(s: Seq<char>, c: char) -> Seq<char>
    decreases s.len(),
{
    if s.len() == 0 {
        s
    } else if s.last() == c {
        remove_char(s.drop_last(), c)
    } else {
        remove_char(s.drop_last(), c).push(s.last())
    }
}

/// The text that str::trim leaves of `s`.
pub uninterp spec fn trimmed(s: Seq<char>) -> Seq<char>;

/// The bytes that base64::decode gives for `text`, or `None` where it fails.
pub uninterp spec fn base64_decoded(text: Seq<char>) -> Option<Seq<u8>>;

/// The text that the bytes `b` encode in UTF-8, or `None` where they are not
/// valid UTF-8.
pub uninterp spec fn utf8_decoded(b: Seq<u8>) -> Option<Seq<char>>;

/// Relies on str::replace with a char pattern and an empty replacement:
/// every occurrence of `c` is removed and the rest kept in order.
#[verifier::external_body]
fn without_char(s: &str, c: char) -> (r: String)
    ensures
        r@ == remove_char(s@, c),
{
    s.replace(c, "")
}

/// Relies on str::trim: the text without its leading and trailing white
/// space; the result depends on the text alone.
#[verifier::external_body]
fn trim_text<'a>(s: &'a str) -> (r: &'a str)
    ensures
        r@ == trimmed(s@),
{
    s.trim()
}

/// Relies on base64::decode (standard alphabet): whether a text decodes, and
/// to which bytes, depends on the text alone. Its one panic, for an input
/// within three bytes of `usize::MAX` long, cannot occur for a string.
#[verifier::external_body]
fn decode_base64(text: &str) -> (r: Result<Vec<u8>, base64::DecodeError>)
    ensures
        match r {
            Ok(b) => base64_decoded(text@) == Some(b@),
            Err(_) => base64_decoded(text@) is None,
        },
{
    base64::decode(text)
}

/// Relies on String::from_utf8: the bytes are taken as they are when they
/// are valid UTF-8, and refused otherwise.
#[verifier::external_body]
fn string_from_utf8(bytes: Vec<u8>) -> (r: Result<String, std::string::FromUtf8Error>)
    ensures
        match r {
            Ok(s) => utf8_decoded(bytes@) == Some(s@),
            Err(_) => utf8_decoded(bytes@) is None,
        },
{
    String::from_utf8(bytes)
}

/// Why the text of a fetched configuration file could not be read.
#[derive(Debug)]
pub enum ConfigError {
    /// The listing holds no item for the file.
    NotFound(String),
    /// The item carries no content.
    NoContent,
    /// The content is not valid base64.
    DecodeError(base64::DecodeError),
    /// The decoded bytes are not valid UTF-8.
    Utf8Error(std::string::FromUtf8Error),
}

/// The base64 text of an encoded content, as it is decoded: line breaks
/// removed, then surrounding white space trimmed.
pub open spec fn cleaned(content: Seq<char>) -> Seq<char> {
    trimmed(remove_char(remove_char(content, '\n'), '\r'))
}

/// The text of the file `file` from the listing that fetching it returned:
/// the first item's content, which the hosting API encodes in base64 with line
/// breaks, decoded and read as UTF-8.
pub fn config_text(items: &SerializableContentItems, file: &String) -> (r: Result<
    String,
    ConfigError,
>)
    ensures
        items.items@.len() == 0 ==> (r matches Err(ConfigError::NotFound(f)) && f@ == file@),
        items.items@.len() > 0 && items.items@[0].content is None ==> (r matches Err(
            ConfigError::NoContent,
        )),
        items.items@.len() > 0 && items.items@[0].content is Some ==> match base64_decoded(
            cleaned(items.items@[0].content->Some_0@),
        ) {
            None => r matches Err(ConfigError::DecodeError(_)),
            Some(b) => match utf8_decoded(b) {
                None => r matches Err(ConfigError::Utf8Error(_)),
                Some(t) => r matches Ok(s) && s@ == t,
            },
        },
{
    if items.items.len() == 0 {
        return Err(ConfigError::NotFound(file.clone()));
    }
    let content = match &items.items[0].content {
        None => {
            return Err(ConfigError::NoContent);
        },
        Some(c) => c,
    };
    let no_newlines = without_char(content.as_str(), '\n');
    let no_breaks = without_char(no_newlines.as_str(), '\r');
    let encoded = trim_text(no_breaks.as_str());
    match decode_base64(encoded) {
        Err(e) => Err(ConfigError::DecodeError(e)),
        Ok(bytes) => match string_from_utf8(bytes) {
            Err(e) => Err(ConfigError::Utf8Error(e)),
            Ok(s) => Ok(s),
        },
    }
}

} // verus!
