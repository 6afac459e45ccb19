use crate::text::str_eq;
use vstd::prelude::*;

verus! {

broadcast use vstd::string::group_string_axioms;

/// The failure returned when a string names no known HTTP version; it keeps
/// the string that was being parsed.
#[derive(Debug)]
pub struct ParseVersionError {
    parsed: String,
}

impl ParseVersionError {
    /// The string this error keeps.
    pub closed spec fn spec_source(&self) -> Seq<char> {
        self.parsed@
    }

    /// Wraps the string that failed to parse.
    pub fn new(parsed: &str) -> (r: Self)
        ensures
            r.spec_source() == parsed@,
    {
        let parsed = parsed.to_owned();
        ParseVersionError { parsed }
    }

    /// The string that failed to parse.
    pub fn source(&self) -> (r: &str)
        ensures
            r@ == self.spec_source(),
    {
        self.parsed.as_str()
    }
}

/// The HTTP versions this library considers valid.
#[derive(Debug, PartialEq, Eq, Structural, Clone, Copy)]
pub enum Version {
    /// HTTP version 1.0.
    HTTP1_0,
    /// HTTP version 1.1.
    HTTP1_1,
    /// HTTP version 2.
    HTTP2,
}

/// The textual form of a version.
pub open spec fn spec_version_str(v: Version) -> Seq<char> {
    match v {
        Version::HTTP1_0 => "HTTP/1.0"@,
        Version::HTTP1_1 => "HTTP/1.1"@,
        Version::HTTP2 => "HTTP/2"@,
    }
}

/// The version a string names, if any.
pub open spec fn spec_version_of(s: Seq<char>) -> Option<Version> {
    if s == "HTTP/1.0"@ {
        Some(Version::HTTP1_0)
    } else if s == "HTTP/1.1"@ {
        Some(Version::HTTP1_1)
    } else if s == "HTTP/2"@ {
        Some(Version::HTTP2)
    } else {
        None
    }
}

impl Version {
    /// Parses one of the three version strings; any other string is returned
    /// inside the error.
    pub fn from_str(s: &str) -> (r: Result<Version, ParseVersionError>)
        ensures
            match r {
                Ok(v) => spec_version_of(s@) == Some(v),
                Err(e) => spec_version_of(s@) is None && e.spec_source() == s@,
            },
    {
        if str_eq(s, "HTTP/1.0") {
            Ok(Version::HTTP1_0)
        } else if str_eq(s, "HTTP/1.1") {
            Ok(Version::HTTP1_1)
        } else if str_eq(s, "HTTP/2") {
            Ok(Version::HTTP2)
        } else {
            Err(ParseVersionError::new(s))
        }
    }

    /// The textual form of this version.
    pub fn as_str(&self) -> (r: &'static str)
        ensures
            r@ == spec_version_str(*self),
    {
        match self {
            Version::HTTP1_0 => "HTTP/1.0",
            Version::HTTP1_1 => "HTTP/1.1",
            Version::HTTP2 => "HTTP/2",
        }
    }
}

/// Writing a version and reading it back yields the same version.
pub proof fn lemma_version_roundtrip(v: Version)
    ensures
        spec_version_of(spec_version_str(v)) == Some(v),
{
    reveal_strlit("HTTP/1.0");
    reveal_strlit("HTTP/1.1");
    reveal_strlit("HTTP/2");
    assert(("HTTP/1.0"@).len() == 8 && ("HTTP/1.0"@)[7] == '0');
    assert(("HTTP/1.1"@).len() == 8 && ("HTTP/1.1"@)[7] == '1');
    assert(("HTTP/2"@).len() == 6);
}

} // verus!
