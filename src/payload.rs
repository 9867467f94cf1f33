//! Response payloads read as text, and the file extension that suits a media
//! subtype.

use vstd::prelude::*;
use crate::request::word_is;
use crate::text::chars_of;

verus! {

/// A response body decoded as text.
#[derive(Debug, Clone, PartialEq, Eq)]
pub struct TextPayload {
    pub extension: Option<String>,
    pub charset: String,
    pub text: String,
}

/// The file extension for a (lower-case) media subtype, for the subtypes that
/// have a usual one.
pub open spec fn extension_of(subtype: Seq<char>) -> Option<Seq<char>> {
    if subtype == "pdf"@ {
        Some("pdf"@)
    } else if subtype == "html"@ {
        Some("html"@)
    } else if subtype == "bmp"@ {
        Some("bmp"@)
    } else if subtype == "css"@ {
        Some("css"@)
    } else if subtype == "csv"@ {
        Some("csv"@)
    } else if subtype == "gif"@ {
        Some("gif"@)
    } else if subtype == "javascript"@ {
        Some("js"@)
    } else if subtype == "jpeg"@ {
        Some("jpg"@)
    } else if subtype == "json"@ {
        Some("json"@)
    } else if subtype == "mp4"@ {
        Some("mp4"@)
    } else if subtype == "mpeg"@ {
        Some("mpeg"@)
    } else if subtype == "png"@ {
        Some("png"@)
    } else if subtype == "svg"@ {
        Some("svg"@)
    } else if subtype == "xml"@ {
        Some("xml"@)
    } else {
        None
    }
}

pub open spec fn opt_view(r: Option<String>) -> Option<Seq<char>> {
    match r {
        Some(s) => Some(s@),
        None => None,
    }
}

/// The file extension for a media subtype such as `json` or `javascript`.
pub fn parse_extension(name: &str) -> (r: Option<String>)
    ensures
        opt_view(r) == extension_of(name@),
{
    let cs = chars_of(name);
    let n = cs.len();
    assert(cs@.subrange(0, n as int) =~= name@);
    if word_is(&cs, 0, n, "pdf") {
        Some("pdf".to_owned())
    } else if word_is(&cs, 0, n, "html") {
        Some("html".to_owned())
    } else if word_is(&cs, 0, n, "bmp") {
        Some("bmp".to_owned())
    } else if word_is(&cs, 0, n, "css") {
        Some("css".to_owned())
    } else if word_is(&cs, 0, n, "csv") {
        Some("csv".to_owned())
    } else if word_is(&cs, 0, n, "gif") {
        Some("gif".to_owned())
    } else if word_is(&cs, 0, n, "javascript") {
        Some("js".to_owned())
    } else if word_is(&cs, 0, n, "jpeg") {
        Some("jpg".to_owned())
    } else if word_is(&cs, 0, n, "json") {
        Some("json".to_owned())
    } else if word_is(&cs, 0, n, "mp4") {
        Some("mp4".to_owned())
    } else if word_is(&cs, 0, n, "mpeg") {
        Some("mpeg".to_owned())
    } else if word_is(&cs, 0, n, "png") {
        Some("png".to_owned())
    } else if word_is(&cs, 0, n, "svg") {
        Some("svg".to_owned())
    } else if word_is(&cs, 0, n, "xml") {
        Some("xml".to_owned())
    } else {
        None
    }
}

} // verus!
