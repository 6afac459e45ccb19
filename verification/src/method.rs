use crate::text::str_eq;
use vstd::prelude::*;

verus! {

broadcast use vstd::string::group_string_axioms;

/// How many request methods there are.
pub const METHOD_COUNT: usize = 9;

/// One variant per HTTP request method.
#[allow(missing_docs)]
#[derive(Debug, PartialEq, Eq, Structural, Clone, Copy)]
pub enum HttpMethod {
    GET,
    HEAD,
    POST,
    PUT,
    DELETE,
    CONNECT,
    OPTIONS,
    TRACE,
    PATCH,
}

/// The token that names a method on the wire.
pub open spec fn spec_method_str(m: HttpMethod) -> Seq<char> {
    match m {
        HttpMethod::GET => "GET"@,
        HttpMethod::HEAD => "HEAD"@,
        HttpMethod::POST => "POST"@,
        HttpMethod::PUT => "PUT"@,
        HttpMethod::DELETE => "DELETE"@,
        HttpMethod::CONNECT => "CONNECT"@,
        HttpMethod::OPTIONS => "OPTIONS"@,
        HttpMethod::TRACE => "TRACE"@,
        HttpMethod::PATCH => "PATCH"@,
    }
}

/// The method a token names, if any.
pub open spec fn spec_method_of(s: Seq<char>) -> Option<HttpMethod> {
    if s == "GET"@ {
        Some(HttpMethod::GET)
    } else if s == "HEAD"@ {
        Some(HttpMethod::HEAD)
    } else if s == "POST"@ {
        Some(HttpMethod::POST)
    } else if s == "PUT"@ {
        Some(HttpMethod::PUT)
    } else if s == "DELETE"@ {
        Some(HttpMethod::DELETE)
    } else if s == "CONNECT"@ {
        Some(HttpMethod::CONNECT)
    } else if s == "OPTIONS"@ {
        Some(HttpMethod::OPTIONS)
    } else if s == "TRACE"@ {
        Some(HttpMethod::TRACE)
    } else if s == "PATCH"@ {
        Some(HttpMethod::PATCH)
    } else {
        None
    }
}

/// The position of a method in a per-method handler table.
pub open spec fn method_index(m: HttpMethod) -> int {
    match m {
        HttpMethod::GET => 0,
        HttpMethod::HEAD => 1,
        HttpMethod::POST => 2,
        HttpMethod::PUT => 3,
        HttpMethod::DELETE => 4,
        HttpMethod::CONNECT => 5,
        HttpMethod::OPTIONS => 6,
        HttpMethod::TRACE => 7,
        HttpMethod::PATCH => 8,
    }
}

impl HttpMethod {
    /// The method whose table position is the highest.
    pub fn get_last() -> (r: HttpMethod)
        ensures
            r == HttpMethod::PATCH,
            method_index(r) == METHOD_COUNT - 1,
    {
        HttpMethod::PATCH
    }

    /// Parses a method token; any other token is rejected with a message.
    pub fn from_str(s: &str) -> (r: Result<HttpMethod, String>)
        ensures
            match r {
                Ok(m) => spec_method_of(s@) == Some(m),
                Err(e) => spec_method_of(s@) is None && e@ == "invalid http method"@,
            },
    {
        if str_eq(s, "GET") {
            Ok(HttpMethod::GET)
        } else if str_eq(s, "HEAD") {
            Ok(HttpMethod::HEAD)
        } else if str_eq(s, "POST") {
            Ok(HttpMethod::POST)
        } else if str_eq(s, "PUT") {
            Ok(HttpMethod::PUT)
        } else if str_eq(s, "DELETE") {
            Ok(HttpMethod::DELETE)
        } else if str_eq(s, "CONNECT") {
            Ok(HttpMethod::CONNECT)
        } else if str_eq(s, "OPTIONS") {
            Ok(HttpMethod::OPTIONS)
        } else if str_eq(s, "TRACE") {
            Ok(HttpMethod::TRACE)
        } else if str_eq(s, "PATCH") {
            Ok(HttpMethod::PATCH)
        } else {
            Err(String::from_str("invalid http method"))
        }
    }

    /// The token that names this method.
    pub fn as_str(&self) -> (r: &'static str)
        ensures
            r@ == spec_method_str(*self),
    {
        match self {
            HttpMethod::GET => "GET",
            HttpMethod::HEAD => "HEAD",
            HttpMethod::POST => "POST",
            HttpMethod::PUT => "PUT",
            HttpMethod::DELETE => "DELETE",
            HttpMethod::CONNECT => "CONNECT",
            HttpMethod::OPTIONS => "OPTIONS",
            HttpMethod::TRACE => "TRACE",
            HttpMethod::PATCH => "PATCH",
        }
    }

    /// The position of this method in a per-method handler table; always
    /// below [`METHOD_COUNT`].
    pub fn index(&self) -> (r: usize)
        ensures
            r == method_index(*self),
            r < METHOD_COUNT,
    {
        match self {
            HttpMethod::GET => 0,
            HttpMethod::HEAD => 1,
            HttpMethod::POST => 2,
            HttpMethod::PUT => 3,
            HttpMethod::DELETE => 4,
            HttpMethod::CONNECT => 5,
            HttpMethod::OPTIONS => 6,
            HttpMethod::TRACE => 7,
            HttpMethod::PATCH => 8,
        }
    }
}

/// Writing a method token and reading it back yields the same method.
pub proof fn lemma_method_roundtrip(m: HttpMethod)
    ensures
        spec_method_of(spec_method_str(m)) == Some(m),
{
    reveal_strlit("GET");
    reveal_strlit("HEAD");
    reveal_strlit("POST");
    reveal_strlit("PUT");
    reveal_strlit("DELETE");
    reveal_strlit("CONNECT");
    reveal_strlit("OPTIONS");
    reveal_strlit("TRACE");
    reveal_strlit("PATCH");
    assert(("GET"@).len() == 3 && ("GET"@)[0] == 'G');
    assert(("HEAD"@).len() == 4 && ("HEAD"@)[0] == 'H');
    assert(("POST"@).len() == 4 && ("POST"@)[0] == 'P');
    assert(("PUT"@).len() == 3 && ("PUT"@)[0] == 'P');
    assert(("DELETE"@).len() == 6 && ("DELETE"@)[0] == 'D');
    assert(("CONNECT"@).len() == 7 && ("CONNECT"@)[0] == 'C');
    assert(("OPTIONS"@).len() == 7 && ("OPTIONS"@)[0] == 'O');
    assert(("TRACE"@).len() == 5 && ("TRACE"@)[0] == 'T');
    assert(("PATCH"@).len() == 5 && ("PATCH"@)[0] == 'P');
}

} // verus!
