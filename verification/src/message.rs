use crate::errors::HttpError;
use crate::errors::HttpResult;
use crate::headers::spec_parse_headers;
use crate::headers::spec_serialize_headers;
use crate::headers::spec_add;
use crate::headers::Header;
use crate::headers::Headers;
use crate::headers::CR;
use crate::headers::LF;
use crate::method::spec_method_of;
use crate::method::spec_method_str;
use crate::method::HttpMethod;
use crate::status::spec_reason;
use crate::status::spec_status_code;
use crate::status::spec_status_of;
use crate::status::StatusCode;
use crate::text::bytes_to_string;
use crate::text::char_digits;
use crate::text::char_digits_val;
use crate::text::dec_str;
use crate::text::is_digit_byte;
use crate::text::is_latin1_seq;
use crate::text::latin1;
use crate::text::latin1_bytes;
use crate::text::parse_u64_str;
use crate::text::read_until;
use crate::text::segment_end;
use crate::text::str_eq;
use crate::text::string_to_bytes;
use crate::text::u64_to_string;
use crate::version::Version;
use vstd::string::StringSliceAdditionalSpecFns;
use vstd::prelude::*;

verus! {

broadcast use vstd::string::group_string_axioms;

// Media types.  Whether a Content-Type value is a valid media type, and
// what its canonical text is, is decided by the mime crate; the canonical
// text of a given value never changes.

/// The canonical text of a media-type string, or nothing where the string
/// is not a valid media type.
pub uninterp spec fn mime_parse(s: Seq<char>) -> Option<Seq<char>>;

/// Relies on mime's parser (`str::parse::<mime::Mime>`) and on
/// `mime::Mime`'s display form: a media-type string either parses, giving
/// its canonical text, or is rejected, and the outcome depends on the
/// string alone.
#[verifier::external_body]
fn parse_media_type(s: &str) -> (r: Option<String>)
    ensures
        r is Some <==> mime_parse(s@) is Some,
        r matches Some(t) ==> mime_parse(s@) == Some(t@),
{
    match s.parse::<mime::Mime>() {
        Ok(m) => Some(m.to_string()),
        Err(_) => None,
    }
}

/// Relies on mime's `TEXT_PLAIN` constant, whose display form is the
/// string "text/plain".
#[verifier::external_body]
fn mime_text_plain() -> (r: String)
    ensures
        r@ == "text/plain"@,
{
    mime::TEXT_PLAIN.to_string()
}

// Trailing white space, as `str::trim_end` removes it.

/// Whether the character is white space.
pub open spec fn is_ws_char(c: char) -> bool {
    c as u32 == 0x20 || (0x09 <= c as u32 <= 0x0d)
}

/// The text with its trailing white space removed.
pub open spec fn trim_end_ws(s: Seq<char>) -> Seq<char>
    decreases s.len(),
{
    if s.len() > 0 && is_ws_char(s.last()) {
        trim_end_ws(s.drop_last())
    } else {
        s
    }
}

/// Whether the character at a position is white space.
fn ws_at(s: &str, i: usize) -> (r: bool)
    requires
        i < s@.len(),
    ensures
        r == is_ws_char(s@[i as int]),
{
    let u = s.get_char(i) as u32;
    u == 0x20 || (0x09 <= u && u <= 0x0d)
}

/// Removes trailing white space.
#[verifier::loop_isolation(false)]
pub fn trim_end(s: &str) -> (r: String)
    ensures
        r@ == trim_end_ws(s@),
{
    let n = s.unicode_len();
    let mut end: usize = n;
    proof {
        assert(s@.take(n as int) =~= s@);
    }
    while end > 0 && ws_at(s, end - 1)
        invariant
            end <= n,
            n == s@.len(),
            trim_end_ws(s@) == trim_end_ws(s@.take(end as int)),
        decreases end,
    {
        proof {
            assert(s@.take(end as int).last() == s@[end - 1]);
            assert(s@.take(end as int).drop_last() =~= s@.take(end - 1));
        }
        end = end - 1;
    }
    let mut r = String::new();
    let mut i: usize = 0;
    proof {
        if end > 0 {
            assert(s@.take(end as int).last() == s@[end - 1]);
        }
        assert(trim_end_ws(s@.take(end as int)) == s@.take(end as int));
    }
    while i < end
        invariant
            end <= n,
            n == s@.len(),
            i <= end,
            r@ == s@.take(i as int),
        decreases end - i,
    {
        let c = s.get_char(i);
        crate::text::push_char(&mut r, c);
        i = i + 1;
        proof {
            assert(s@.take(i as int) =~= s@.take(i - 1).push(s@[i - 1]));
        }
    }
    r
}

// The HTTP version grammar: "HTTP" "/" 1*DIGIT "." 1*DIGIT, each digit
// group valuing at most 255.

/// Whether the text is a valid HTTP version.
pub open spec fn spec_valid_version(s: Seq<char>) -> bool {
    &&& is_latin1_seq(s)
    &&& s.len() >= 5
    &&& s.take(5) == "HTTP/"@
    &&& forall|i: int| 5 <= i < s.len() ==> (#[trigger] s[i]) != '/'
    &&& ({
        let rest = s.skip(5);
        let d = crate::text::until_pos(latin1_bytes(rest), 0x2e);
        &&& d >= 0
        &&& forall|i: int|
            d + 1 <= i < latin1_bytes(rest).len() ==> (#[trigger] latin1_bytes(rest)[i]) != 0x2e
        &&& char_digits(rest.take(d))
        &&& char_digits_val(rest.take(d)) <= 255
        &&& char_digits(rest.skip(d + 1))
        &&& char_digits_val(rest.skip(d + 1)) <= 255
    })
}

/// A line parsed from a message start: its parts, or the error that the
/// octets provoke.  An empty input means the peer closed the connection.
pub enum StartLineError {
    /// The connection was closed before any octet of the line.
    Closed,
    /// The line is malformed; the payload is the message reported.
    Malformed(Seq<char>),
}

/// A request line: method, request target, and protocol version.
#[derive(Debug)]
pub struct HttpRequestLine {
    /// The request method.
    pub method: HttpMethod,
    /// The request target, as it stood on the wire.
    pub uri: String,
    /// The protocol version, as it stood on the wire.
    pub version: String,
}

/// What parsing a request line from the start of the input yields: the
/// method, target and version with the octets consumed, or an error.
pub open spec fn spec_parse_request_line(s: Seq<u8>) -> Result<
    (HttpMethod, Seq<char>, Seq<char>, int),
    StartLineError,
> {
    if s.len() == 0 {
        Err(StartLineError::Closed)
    } else {
        let m_end = segment_end(s, 0x20);
        if m_end < 2 {
            Err(StartLineError::Malformed("invalid request line"@))
        } else {
            match spec_method_of(latin1(s.take(m_end).drop_last())) {
                None => Err(StartLineError::Malformed("invalid http method"@)),
                Some(method) => {
                    let s1 = s.skip(m_end);
                    let u_end = segment_end(s1, 0x20);
                    if u_end < 2 {
                        Err(StartLineError::Malformed("invalid request line"@))
                    } else {
                        let uri = latin1(s1.take(u_end).drop_last());
                        let s2 = s1.skip(u_end);
                        let v_end = segment_end(s2, LF);
                        if v_end < 3 {
                            Err(StartLineError::Malformed("invalid request line"@))
                        } else if s2[v_end - 2] != CR {
                            Err(StartLineError::Malformed("invalid request line"@))
                        } else {
                            Ok(
                                (
                                    method,
                                    uri,
                                    latin1(s2.take(v_end).drop_last().drop_last()),
                                    m_end + u_end + v_end,
                                ),
                            )
                        }
                    }
                },
            }
        }
    }
}

impl HttpRequestLine {
    /// Reads a request line from the start of the input.
    #[verifier::loop_isolation(false)]
    pub fn read_from(from: &[u8]) -> (r: Result<(HttpRequestLine, usize), HttpError>)
        ensures
            match r {
                Ok((line, used)) => {
                    &&& spec_parse_request_line(from@) == Ok::<_, StartLineError>(
                        (line.method, line.uri@, line.version@, used as int),
                    )
                    &&& used <= from@.len()
                },
                Err(e) => match spec_parse_request_line(from@) {
                    Ok(_) => false,
                    Err(StartLineError::Closed) => e is ConnectionClosed,
                    Err(StartLineError::Malformed(m)) => e matches HttpError::InvalidRequest(msg)
                        && msg@ == m,
                },
            },
    {
        if from.len() == 0 {
            return Err(HttpError::ConnectionClosed);
        }
        let m_end = read_until(from, 0, 0x20);
        proof {
            assert(from@.skip(0) =~= from@);
        }
        if m_end < 2 {
            return Err(HttpError::InvalidRequest(String::from_str("invalid request line")));
        }
        let method_str = bytes_to_string(&from[0..m_end - 1]);
        proof {
            assert(from@.subrange(0, m_end - 1) =~= from@.take(m_end as int).drop_last());
        }
        let method = match HttpMethod::from_str(method_str.as_str()) {
            Err(_) => {
                return Err(HttpError::InvalidRequest(String::from_str("invalid http method")));
            },
            Ok(m) => m,
        };
        let ghost s1 = from@.skip(m_end as int);
        let u_end = read_until(from, m_end, 0x20);
        if u_end - m_end < 2 {
            return Err(HttpError::InvalidRequest(String::from_str("invalid request line")));
        }
        let uri = bytes_to_string(&from[m_end..u_end - 1]);
        proof {
            assert(from@.subrange(m_end as int, u_end - 1) =~= s1.take(
                u_end - m_end,
            ).drop_last());
        }
        let ghost s2 = from@.skip(u_end as int);
        proof {
            assert(s2 =~= s1.skip(u_end - m_end));
        }
        let v_end = read_until(from, u_end, LF);
        if v_end - u_end < 3 {
            return Err(HttpError::InvalidRequest(String::from_str("invalid request line")));
        }
        if from[v_end - 2] != CR {
            proof {
                assert(s2[v_end - u_end - 2] == from@[v_end - 2]);
            }
            return Err(HttpError::InvalidRequest(String::from_str("invalid request line")));
        }
        let version = bytes_to_string(&from[u_end..v_end - 2]);
        proof {
            assert(s2[v_end - u_end - 2] == from@[v_end - 2]);
            assert(from@.subrange(u_end as int, v_end - 2) =~= s2.take(
                v_end - u_end,
            ).drop_last().drop_last());
        }
        Ok((HttpRequestLine { method, uri, version }, v_end))
    }

    /// Serialized, a request line is the method token, the target and the
    /// version separated by single spaces, and CRLF.
    pub open spec fn spec_serialize(m: HttpMethod, uri: Seq<char>, version: Seq<char>) -> Seq<u8> {
        latin1_bytes(spec_method_str(m)) + seq![0x20u8] + latin1_bytes(uri) + seq![0x20u8]
            + latin1_bytes(version) + seq![CR, LF]
    }

    /// Appends the serialized request line.
    pub fn write(&mut self, to: &mut Vec<u8>) -> (r: HttpResult<()>)
        requires
            is_latin1_seq(old(self).uri@),
            is_latin1_seq(old(self).version@),
        ensures
            *final(self) == *old(self),
            r is Ok,
            final(to)@ == old(to)@ + Self::spec_serialize(
                old(self).method,
                old(self).uri@,
                old(self).version@,
            ),
    {
        proof {
            lemma_method_str_latin1(self.method);
        }
        let mut method_bytes = string_to_bytes(self.method.as_str());
        to.append(&mut method_bytes);
        to.push(0x20);
        let mut uri_bytes = string_to_bytes(self.uri.as_str());
        to.append(&mut uri_bytes);
        to.push(0x20);
        let mut version_bytes = string_to_bytes(self.version.as_str());
        to.append(&mut version_bytes);
        to.push(CR);
        to.push(LF);
        proof {
            assert(to@ =~= old(to)@ + Self::spec_serialize(self.method, self.uri@, self.version@));
        }
        Ok(())
    }
}


/// A status line: protocol version, status code, and reason phrase.
#[derive(Debug)]
pub struct HttpResponseLine {
    /// The protocol version, as it stood on the wire.
    pub http_version: String,
    /// The status code.
    pub status_code: StatusCode,
    /// The reason phrase, as it stood on the wire.
    pub reason_phrase: String,
}

/// What parsing a status line from the start of the input yields: the
/// status code, version and reason with the octets consumed, or an error.
pub open spec fn spec_parse_response_line(s: Seq<u8>) -> Result<
    ((StatusCode, Seq<char>, Seq<char>), int),
    StartLineError,
> {
    if s.len() == 0 {
        Err(StartLineError::Closed)
    } else {
        let v_end = segment_end(s, 0x20);
        let vstr = trim_end_ws(latin1(s.take(v_end)));
        if !spec_valid_version(vstr) {
            Err(StartLineError::Malformed("invalid http version"@))
        } else {
            let s1 = s.skip(v_end);
            let c_end = segment_end(s1, 0x20);
            if c_end != 4 {
                Err(StartLineError::Malformed("invalid status code"@))
            } else {
                let cstr = trim_end_ws(latin1(s1.take(4)));
                if !(char_digits(cstr) && char_digits_val(cstr) <= usize::MAX) {
                    Err(StartLineError::Malformed("invalid status code"@))
                } else {
                    let s2 = s1.skip(4);
                    let r_end = segment_end(s2, LF);
                    if r_end < 3 {
                        Err(StartLineError::Malformed("invalid reason phrase"@))
                    } else {
                        Ok(
                            (
                                (
                                    spec_status_of(char_digits_val(cstr) as usize),
                                    vstr,
                                    latin1(s2.take(r_end).drop_last().drop_last()),
                                ),
                                v_end + c_end + r_end,
                            ),
                        )
                    }
                }
            }
        }
    }
}

impl HttpResponseLine {
    /// Decides whether a string is a valid HTTP version: the word "HTTP",
    /// a slash, and two digit groups separated by a dot, each valuing at
    /// most 255.
    #[verifier::loop_isolation(false)]
    pub fn validate_version(version: &str) -> (r: Result<(), HttpError>)
        ensures
            r is Ok <==> spec_valid_version(version@),
            r matches Err(e) ==> e matches HttpError::Unknown(m) && m@ == "invalid http version"@,
    {
        let bad = Err::<(), HttpError>(HttpError::Unknown(String::from_str("invalid http version")));
        let n = version.unicode_len();
        if n < 5 {
            return bad;
        }
        proof {
            reveal_strlit("HTTP/");
            assert(("HTTP/"@).len() == 5);
        }
        let mut k: usize = 0;
        while k < 5
            invariant
                k <= 5,
                5 <= n == version@.len(),
                forall|i: int| 0 <= i < k ==> version@[i] == ("HTTP/"@)[i],
            decreases 5 - k,
        {
            let c = version.get_char(k);
            let want: char = if k == 0 {
                'H'
            } else if k == 3 {
                'P'
            } else if k == 4 {
                '/'
            } else {
                'T'
            };
            if c != want {
                proof {
                    assert(version@.take(5)[k as int] == version@[k as int]);
                    assert(version@[k as int] != ("HTTP/"@)[k as int]);
                }
                return bad;
            }
            k = k + 1;
        }
        proof {
            assert(version@.take(5) =~= "HTTP/"@);
        }
        let ghost rest = version@.skip(5);
        let mut rest_bytes: Vec<u8> = Vec::new();
        let mut i: usize = 5;
        while i < n
            invariant
                5 <= i <= n,
                n == version@.len(),
                rest == version@.skip(5),
                rest_bytes@ =~= latin1_bytes(rest.take(i - 5)),
                forall|j: int| 0 <= j < i - 5 ==> ((#[trigger] rest[j]) as u32) < 0x100,
                forall|j: int| 0 <= j < i - 5 ==> (#[trigger] rest[j]) != '/',
            decreases n - i,
        {
            let c = version.get_char(i);
            let u = c as u32;
            proof {
                assert(rest[i - 5] == version@[i as int]);
            }
            if u >= 0x100 {
                proof {
                    assert((version@[i as int] as u32) >= 0x100);
                }
                return bad;
            }
            if u == 0x2f {
                proof {
                    vstd::utf8::char_u32_cast(c, 0x2f);
                    assert(c == '/');
                }
                return bad;
            }
            rest_bytes.push(u as u8);
            i = i + 1;
            proof {
                assert(latin1_bytes(rest.take(i - 5)) =~= latin1_bytes(rest.take(i - 6)).push(
                    rest[i - 6] as u8,
                ));
            }
        }
        proof {
            assert(rest.take(n - 5) =~= rest);
            assert(rest_bytes@ == latin1_bytes(rest));
            assert forall|j: int| 0 <= j < version@.len() implies ((#[trigger] version@[j]) as u32)
                < 0x100 by {
                if j < 5 {
                    assert(version@[j] == ("HTTP/"@)[j]);
                } else {
                    assert(rest[j - 5] == version@[j]);
                }
            }
        }
        let d_end = read_until(rest_bytes.as_slice(), 0, 0x2e);
        proof {
            assert(rest_bytes@.skip(0) =~= rest_bytes@);
            crate::text::lemma_until_pos(rest_bytes@, 0x2e);
        }
        if d_end == rest_bytes.len() && (rest_bytes.len() == 0 || rest_bytes[rest_bytes.len() - 1]
            != 0x2e) {
            proof {
                assert(crate::text::until_pos(rest_bytes@, 0x2e) == -1) by {
                    let p = crate::text::until_pos(rest_bytes@, 0x2e);
                    if p >= 0 {
                        assert(rest_bytes@[p] == 0x2e);
                        if p < rest_bytes@.len() - 1 {
                            assert(segment_end(rest_bytes@, 0x2e) == p + 1);
                        }
                    }
                }
            }
            return bad;
        }
        let d = d_end - 1;
        proof {
            assert(crate::text::until_pos(rest_bytes@, 0x2e) == d) by {
                let p = crate::text::until_pos(rest_bytes@, 0x2e);
                if p == -1 {
                    assert(segment_end(rest_bytes@, 0x2e) == rest_bytes@.len());
                    assert(rest_bytes@[d as int] == rest_bytes@[rest_bytes@.len() - 1]);
                }
            }
            assert(rest_bytes@[d as int] == 0x2e);
        }
        // No second dot may follow.
        let mut j: usize = d + 1;
        while j < rest_bytes.len()
            invariant
                d + 1 <= j <= rest_bytes@.len(),
                forall|m: int| d + 1 <= m < j ==> (#[trigger] rest_bytes@[m]) != 0x2e,
            decreases rest_bytes@.len() - j,
        {
            if rest_bytes[j] == 0x2e {
                proof {
                    assert(latin1_bytes(rest)[j as int] == 0x2e);
                }
                return bad;
            }
            j = j + 1;
        }
        proof {
            assert forall|m: int| d + 1 <= m < latin1_bytes(rest).len() implies (
            #[trigger] latin1_bytes(rest)[m]) != 0x2e by {
                assert(rest_bytes@[m] != 0x2e);
            }
        }
        // Both digit groups must be numerals of value at most 255.
        let left_ok = match crate::text::parse_u64_digits(&rest_bytes.as_slice()[0..d]) {
            Some(v) => v <= 255,
            None => false,
        };
        proof {
            assert(rest_bytes@.subrange(0, d as int) =~= latin1_bytes(rest.take(d as int)));
            assert(char_digits(rest.take(d as int)) <==> crate::text::is_digit_seq(
                rest_bytes@.subrange(0, d as int),
            )) by {
                if crate::text::is_digit_seq(rest_bytes@.subrange(0, d as int)) {
                    assert forall|m: int| 0 <= m < d implies ((#[trigger] rest.take(d as int)[m])
                        as u32) < 0x100 && is_digit_byte(rest.take(d as int)[m] as u8) by {
                        assert(rest_bytes@.subrange(0, d as int)[m] == rest[m] as u8);
                        assert(is_digit_byte(rest_bytes@.subrange(0, d as int)[m]));
                    }
                }
                if char_digits(rest.take(d as int)) {
                    assert forall|m: int| 0 <= m < d implies is_digit_byte(
                        #[trigger] rest_bytes@.subrange(0, d as int)[m],
                    ) by {
                        assert(rest.take(d as int)[m] == rest[m]);
                        assert(rest_bytes@.subrange(0, d as int)[m] == rest[m] as u8);
                    }
                }
            }
        }
        if !left_ok {
            return bad;
        }
        let right_ok = match crate::text::parse_u64_digits(
            &rest_bytes.as_slice()[d + 1..rest_bytes.len()],
        ) {
            Some(v) => v <= 255,
            None => false,
        };
        proof {
            assert(rest_bytes@.subrange(d + 1, rest_bytes@.len() as int) =~= latin1_bytes(
                rest.skip(d + 1),
            ));
            assert(char_digits(rest.skip(d + 1)) <==> crate::text::is_digit_seq(
                rest_bytes@.subrange(d + 1, rest_bytes@.len() as int),
            )) by {
                let sub = rest_bytes@.subrange(d + 1, rest_bytes@.len() as int);
                if crate::text::is_digit_seq(sub) {
                    assert forall|m: int| 0 <= m < sub.len() implies ((#[trigger] rest.skip(
                        d + 1,
                    )[m]) as u32) < 0x100 && is_digit_byte(rest.skip(d + 1)[m] as u8) by {
                        assert(rest.skip(d + 1)[m] == rest[m + d + 1]);
                        assert(sub[m] == rest[m + d + 1] as u8);
                        assert(is_digit_byte(sub[m]));
                    }
                }
                if char_digits(rest.skip(d + 1)) {
                    assert forall|m: int| 0 <= m < sub.len() implies is_digit_byte(
                        #[trigger] sub[m],
                    ) by {
                        assert(rest.skip(d + 1)[m] == rest[m + d + 1]);
                        assert(sub[m] == rest[m + d + 1] as u8);
                    }
                }
            }
        }
        if !right_ok {
            return bad;
        }
        proof {
            let s = version@;
            let rest_g = s.skip(5);
            assert(rest_g == rest);
            assert(s.take(5) == "HTTP/"@);
            assert forall|ii: int| 5 <= ii < s.len() implies (#[trigger] s[ii]) != '/' by {
                assert(rest[ii - 5] == s[ii]);
            }
            assert(is_latin1_seq(s));
            assert(crate::text::until_pos(latin1_bytes(rest), 0x2e) == d);
            assert(char_digits(rest.take(d as int)));
            assert(char_digits_val(rest.take(d as int)) == crate::text::digits_val(
                rest_bytes@.subrange(0, d as int),
            ));
            assert(char_digits(rest.skip(d + 1)));
            assert(char_digits_val(rest.skip(d + 1)) == crate::text::digits_val(
                rest_bytes@.subrange(d + 1, rest_bytes@.len() as int),
            ));
            assert(spec_valid_version(s));
        }
        Ok(())
    }

    /// Reads a status line from the start of the input.
    #[verifier::loop_isolation(false)]
    pub fn read_from(from: &[u8]) -> (r: Result<(HttpResponseLine, usize), HttpError>)
        ensures
            match r {
                Ok((line, used)) => {
                    &&& spec_parse_response_line(from@) matches Ok(((code, v, reason), c)) && c
                        == used as int && line.status_code == code && line.http_version@ == v
                        && line.reason_phrase@ == reason
                    &&& used <= from@.len()
                },
                Err(e) => match spec_parse_response_line(from@) {
                    Ok(_) => false,
                    Err(StartLineError::Closed) => e is ConnectionClosed,
                    Err(StartLineError::Malformed(m)) => e matches HttpError::Unknown(msg) && msg@
                        == m,
                },
            },
    {
        if from.len() == 0 {
            return Err(HttpError::ConnectionClosed);
        }
        let v_end = read_until(from, 0, 0x20);
        proof {
            assert(from@.skip(0) =~= from@);
            assert(from@.subrange(0, v_end as int) =~= from@.take(v_end as int));
        }
        let vseg = bytes_to_string(&from[0..v_end]);
        let http_version = trim_end(vseg.as_str());
        match Self::validate_version(http_version.as_str()) {
            Err(e) => {
                return Err(e);
            },
            Ok(()) => {},
        }
        let ghost s1 = from@.skip(v_end as int);
        let c_end = read_until(from, v_end, 0x20);
        if c_end - v_end != 4 {
            return Err(HttpError::Unknown(String::from_str("invalid status code")));
        }
        proof {
            assert(from@.subrange(v_end as int, c_end as int) =~= s1.take(4));
        }
        let cseg = bytes_to_string(&from[v_end..c_end]);
        let cstr = trim_end(cseg.as_str());
        let code_num = match parse_u64_str(cstr.as_str()) {
            None => {
                return Err(HttpError::Unknown(String::from_str("invalid status code")));
            },
            Some(v) => v,
        };
        if code_num > usize::MAX as u64 {
            return Err(HttpError::Unknown(String::from_str("invalid status code")));
        }
        let status_code = StatusCode::from(code_num as usize);
        let ghost s2 = from@.skip(c_end as int);
        proof {
            assert(s2 =~= s1.skip(4));
        }
        let r_end = read_until(from, c_end, LF);
        if r_end - c_end < 3 {
            return Err(HttpError::Unknown(String::from_str("invalid reason phrase")));
        }
        let reason_phrase = bytes_to_string(&from[c_end..r_end - 2]);
        proof {
            assert(from@.subrange(c_end as int, r_end - 2) =~= s2.take(
                r_end - c_end,
            ).drop_last().drop_last());
        }
        Ok((HttpResponseLine { http_version, status_code, reason_phrase }, r_end))
    }

    /// Serialized, a status line is the version, the three-digit code, and
    /// the registered reason phrase, separated by single spaces, and CRLF.
    pub open spec fn spec_serialize(version: Seq<char>, status: StatusCode) -> Seq<u8> {
        latin1_bytes(version) + seq![0x20u8] + latin1_bytes(dec_str(spec_status_code(status) as nat))
            + seq![0x20u8] + latin1_bytes(spec_reason(status)) + seq![CR, LF]
    }

    /// Appends the serialized status line.
    pub fn write(&mut self, to: &mut Vec<u8>) -> (r: HttpResult<()>)
        requires
            is_latin1_seq(old(self).http_version@),
            spec_status_code(old(self).status_code) <= u64::MAX,
        ensures
            *final(self) == *old(self),
            r is Ok,
            final(to)@ == old(to)@ + Self::spec_serialize(
                old(self).http_version@,
                old(self).status_code,
            ),
    {
        let mut version_bytes = string_to_bytes(self.http_version.as_str());
        to.append(&mut version_bytes);
        to.push(0x20);
        let code = self.status_code.code();
        let code_str = u64_to_string(code as u64);
        proof {
            crate::text::lemma_dec_str_props(code as nat);
            assert forall|i: int| 0 <= i < code_str@.len() implies ((#[trigger] code_str@[i])
                as u32) < 0x100 by {
                assert(is_digit_byte(code_str@[i] as u8) && (code_str@[i] as u32) < 0x100);
            }
        }
        let mut code_bytes = string_to_bytes(code_str.as_str());
        to.append(&mut code_bytes);
        to.push(0x20);
        proof {
            lemma_reason_latin1(self.status_code);
        }
        let mut reason_bytes = string_to_bytes(self.status_code.reason());
        to.append(&mut reason_bytes);
        to.push(CR);
        to.push(LF);
        proof {
            assert(to@ =~= old(to)@ + Self::spec_serialize(self.http_version@, self.status_code));
        }
        Ok(())
    }
}

/// Every registered reason phrase can be written back as octets.
pub proof fn lemma_reason_latin1(s: StatusCode)
    ensures
        is_latin1_seq(spec_reason(s)),
{
    reveal_strlit("Continue");
    reveal_strlit("Switching Protocols");
    reveal_strlit("OK");
    reveal_strlit("Created");
    reveal_strlit("Accepted");
    reveal_strlit("Non-Authoritative Information");
    reveal_strlit("No Content");
    reveal_strlit("Reset Content");
    reveal_strlit("Partial Content");
    reveal_strlit("Multiple Choices");
    reveal_strlit("Moved Permanently");
    reveal_strlit("Found");
    reveal_strlit("See Other");
    reveal_strlit("Not Modified");
    reveal_strlit("Use Proxy");
    reveal_strlit("Temporary Redirect");
    reveal_strlit("Bad Request");
    reveal_strlit("Unauthorized");
    reveal_strlit("Payment Required");
    reveal_strlit("Forbidden");
    reveal_strlit("Not Found");
    reveal_strlit("Method Not Allowed");
    reveal_strlit("Not Acceptable");
    reveal_strlit("Proxy Authentication Required");
    reveal_strlit("Request Time-out");
    reveal_strlit("Conflict");
    reveal_strlit("Gone");
    reveal_strlit("Length Required");
    reveal_strlit("Precondition Failed");
    reveal_strlit("Request Entity Too Large");
    reveal_strlit("Request-URI Too Large");
    reveal_strlit("Unsupported Media Type");
    reveal_strlit("Requested range not satisfiable");
    reveal_strlit("Expectation Failed");
    reveal_strlit("Internal Server Error");
    reveal_strlit("Not Implemented");
    reveal_strlit("Bad Gateway");
    reveal_strlit("Service Unavailable");
    reveal_strlit("Gateway Time-out");
    reveal_strlit("HTTP Version not supported");
    reveal_strlit("Extesion code");
}


// Bodies.  Whether a message has a body, and how long it is, is decided
// by the Content-Length header alone; transfer encodings other than
// identity are rejected.

/// The smaller of two lengths.
pub open spec fn min_len(a: int, b: int) -> int {
    if a <= b {
        a
    } else {
        b
    }
}

/// What the headers of a message say about its body: no body, a body of
/// so many octets with the raw Content-Type value that accompanies it, or
/// an error.  The error flag says whether the message is rejected as an
/// invalid request or as an unknown failure.
pub open spec fn spec_body_framing(m: Map<Seq<char>, Seq<Seq<char>>>) -> Result<
    Option<(int, Option<Seq<char>>)>,
    (bool, Seq<char>),
> {
    if m.contains_key("Transfer-Encoding"@) && m["Transfer-Encoding"@].len() != 1 {
        Err((true, "invalid Transfer-Encoding header"@))
    } else if m.contains_key("Transfer-Encoding"@) && m["Transfer-Encoding"@][0] != "identity"@ {
        Err((true, "Transfer-Encoding is not supported"@))
    } else if !m.contains_key("Content-Length"@) {
        Ok(None)
    } else if m["Content-Length"@].len() != 1 {
        Err((true, "invalid Content-Length header"@))
    } else if !(char_digits(m["Content-Length"@][0]) && char_digits_val(m["Content-Length"@][0])
        <= usize::MAX) {
        Err((true, "invalid Content-Length header"@))
    } else if char_digits_val(m["Content-Length"@][0]) == 0 {
        Ok(None)
    } else if m.contains_key("Content-Type"@) && mime_parse(m["Content-Type"@][0]) is None {
        Err((false, "invalid Content-Type header"@))
    } else {
        Ok(
            Some(
                (
                    char_digits_val(m["Content-Length"@][0]),
                    if m.contains_key("Content-Type"@) {
                        mime_parse(m["Content-Type"@][0])
                    } else {
                        None
                    },
                ),
            ),
        )
    }
}

/// The body of an HTTP message.
#[derive(Debug)]
pub struct Body {
    /// The canonical text of the body's media type, if one was given.
    pub content_type: Option<String>,
    /// The length, in octets, that the message advertised.
    pub content_length: u64,
    /// The octets of the body.
    pub content: Vec<u8>,
}

impl Body {
    /// Creates a body from its media type, advertised length, and octets.
    pub fn new(content_type: Option<String>, content_length: u64, content: Vec<u8>) -> (r: Body)
        ensures
            r.content_type == content_type,
            r.content_length == content_length,
            r.content == content,
    {
        Body { content_type, content_length, content }
    }

    /// Appends the octets of the body.
    pub fn write(&self, to: &mut Vec<u8>) -> (r: HttpResult<()>)
        ensures
            r is Ok,
            final(to)@ == old(to)@ + self.content@,
    {
        let mut i: usize = 0;
        let n = self.content.len();
        proof {
            assert(to@ =~= old(to)@ + self.content@.take(0));
        }
        while i < n
            invariant
                n == self.content@.len(),
                i <= n,
                to@ == old(to)@ + self.content@.take(i as int),
            decreases n - i,
        {
            to.push(self.content[i]);
            i = i + 1;
            proof {
                assert(self.content@.take(i as int) =~= self.content@.take(i - 1).push(
                    self.content@[i - 1],
                ));
            }
        }
        proof {
            assert(self.content@.take(n as int) =~= self.content@);
        }
        Ok(())
    }

    /// A body holding the given text, under the given media type.
    pub fn from(content: &str, mime_type: &str) -> (r: Body)
        ensures
            r.content_type matches Some(t) && t@ == mime_type@,
            r.content@ == content.spec_bytes(),
            r.content_length == content.spec_bytes().len(),
    {
        let bytes = content.as_bytes_vec();
        let content_length = bytes.len() as u64;
        Body { content_type: Some(mime_type.to_owned()), content_length, content: bytes }
    }

    /// Decides from the headers whether a body follows, and takes its
    /// octets from the start of the input; a shorter input yields what
    /// there is, under the advertised length.
    #[verifier::loop_isolation(false)]
    pub fn read_from(from: &[u8], headers: &Headers) -> (r: Result<Option<Body>, HttpError>)
        requires
            headers.wf(),
        ensures
            match (r, spec_body_framing(headers.as_map())) {
                (Ok(None), Ok(None)) => true,
                (Ok(Some(b)), Ok(Some((len, ct)))) => {
                    &&& b.content_length == len
                    &&& b.content@ == from@.take(min_len(len, from@.len() as int))
                    &&& match (b.content_type, ct) {
                        (Some(t), Some(c)) => t@ == c,
                        (None, None) => true,
                        _ => false,
                    }
                },
                (Err(e), Err((invalid, msg))) => {
                    if invalid {
                        e matches HttpError::InvalidRequest(m) && m@ == msg
                    } else {
                        e matches HttpError::Unknown(m) && m@ == msg
                    }
                },
                _ => false,
            },
    {
        let ghost m = headers.as_map();
        match headers.get("Transfer-Encoding") {
            None => {},
            Some(encoding) => {
                if encoding.len() != 1 {
                    return Err(HttpError::InvalidRequest(
                        String::from_str("invalid Transfer-Encoding header"),
                    ));
                }
                proof {
                    assert(encoding.deep_view()[0] == encoding@[0]@);
                }
                if !str_eq(encoding[0].as_str(), "identity") {
                    return Err(HttpError::InvalidRequest(
                        String::from_str("Transfer-Encoding is not supported"),
                    ));
                }
            },
        }
        let len_value = match headers.get("Content-Length") {
            None => {
                return Ok(None);
            },
            Some(lengths) => {
                if lengths.len() != 1 {
                    return Err(HttpError::InvalidRequest(
                        String::from_str("invalid Content-Length header"),
                    ));
                }
                proof {
                    assert(lengths.deep_view()[0] == lengths@[0]@);
                }
                &lengths[0]
            },
        };
        let len64 = match parse_u64_str(len_value.as_str()) {
            None => {
                return Err(HttpError::InvalidRequest(
                    String::from_str("invalid Content-Length header"),
                ));
            },
            Some(v) => v,
        };
        if len64 > usize::MAX as u64 {
            return Err(HttpError::InvalidRequest(
                String::from_str("invalid Content-Length header"),
            ));
        }
        let len = len64 as usize;
        if len == 0 {
            return Ok(None);
        }
        let content_type = match headers.get("Content-Type") {
            None => None,
            Some(types) => {
                if types.len() == 0 {
                    proof {
                        crate::headers::lemma_entries_map(headers.entries_seq());
                        crate::headers::lemma_find_name(headers.entries_seq(), "Content-Type"@);
                        assert(m["Content-Type"@].len() >= 1);
                        assert(false);
                    }
                    return Err(HttpError::Unknown(
                        String::from_str("invalid Content-Type header"),
                    ));
                }
                proof {
                    assert(types.deep_view()[0] == types@[0]@);
                }
                match parse_media_type(types[0].as_str()) {
                    None => {
                        return Err(HttpError::Unknown(
                            String::from_str("invalid Content-Type header"),
                        ));
                    },
                    Some(t) => Some(t),
                }
            },
        };
        let take_n = if len <= from.len() {
            len
        } else {
            from.len()
        };
        let mut content: Vec<u8> = Vec::new();
        let mut i: usize = 0;
        while i < take_n
            invariant
                take_n <= from@.len(),
                i <= take_n,
                content@ =~= from@.take(i as int),
            decreases take_n - i,
        {
            content.push(from[i]);
            i = i + 1;
            proof {
                assert(from@.take(i as int) =~= from@.take(i - 1).push(from@[i - 1]));
            }
        }
        Ok(Some(Body { content_type, content_length: len64, content }))
    }
}


// Requests and responses.

/// The lower-case form of an ASCII letter; other characters are unchanged.
pub open spec fn lower_char(c: char) -> char {
    if 0x41 <= c as u32 <= 0x5a {
        (((c as u32) + 0x20) as u8) as char
    } else {
        c
    }
}

/// The text with its ASCII letters in lower case.
pub open spec fn spec_lower(s: Seq<char>) -> Seq<char> {
    s.map(|i: int, c: char| lower_char(c))
}

/// Rewrites ASCII letters into lower case.
#[verifier::loop_isolation(false)]
pub fn ascii_lower(s: &str) -> (r: String)
    ensures
        r@ == spec_lower(s@),
{
    let n = s.unicode_len();
    let mut r = String::new();
    let mut i: usize = 0;
    proof {
        assert(r@ =~= spec_lower(s@).take(0));
    }
    while i < n
        invariant
            n == s@.len(),
            i <= n,
            r@ == spec_lower(s@).take(i as int),
        decreases n - i,
    {
        let c = s.get_char(i);
        let u = c as u32;
        let low: char = if 0x41 <= u && u <= 0x5a {
            ((u + 0x20) as u8) as char
        } else {
            c
        };
        assert(low == lower_char(c));
        crate::text::push_char(&mut r, low);
        i = i + 1;
        proof {
            assert(spec_lower(s@).take(i as int) =~= spec_lower(s@).take(i - 1).push(
                lower_char(s@[i - 1]),
            ));
        }
    }
    proof {
        assert(spec_lower(s@).take(n as int) =~= spec_lower(s@));
    }
    r
}

/// An HTTP request.
#[derive(Debug)]
pub struct Request {
    /// The request method.
    pub method: HttpMethod,
    /// The request target.
    pub uri: String,
    /// The protocol version, as it stood on the wire.
    pub version: String,
    /// The headers of the request.
    pub headers: Headers,
    /// The body of the request, if any.
    pub body: Option<Body>,
}

/// Whether a parsed request is what the octets say: the start line names
/// its method, target and version; the header block follows; and the body
/// holds as many octets as the headers advertise, or as many as remain.
pub open spec fn request_matches(s: Seq<u8>, req: Request, used: int, check_used: bool) -> bool {
    spec_parse_request_line(s) matches Ok((m, u, v, c1)) && ({
        &&& req.method == m
        &&& req.uri@ == u
        &&& req.version@ == v
        &&& spec_parse_headers(s.skip(c1)) matches Ok((entries, c2)) && ({
            &&& req.headers.entries_seq() == entries
            &&& req.headers.wf()
            &&& match (req.body, spec_body_framing(crate::headers::entries_map(entries))) {
                (None, Ok(None)) => !check_used || used == c1 + c2,
                (Some(b), Ok(Some((len, ct)))) => {
                    &&& b.content_length == len
                    &&& b.content@ == s.skip(c1 + c2).take(min_len(len, s.len() - c1 - c2))
                    &&& match (b.content_type, ct) {
                        (Some(t), Some(c)) => t@ == c,
                        (None, None) => true,
                        _ => false,
                    }
                    &&& !check_used || used == c1 + c2 + b.content@.len()
                },
                _ => false,
            }
        })
    })
}

/// Which error parsing a request out of the octets provokes, and at which
/// stage: the start line, the header block, or the body framing.
pub open spec fn request_parse_fails(s: Seq<u8>, e: HttpError) -> bool {
    ||| (spec_parse_request_line(s) matches Err(StartLineError::Closed) && e is ConnectionClosed)
    ||| (spec_parse_request_line(s) matches Err(StartLineError::Malformed(msg)) && (
    e matches HttpError::InvalidRequest(em) && em@ == msg))
    ||| (spec_parse_request_line(s) matches Ok((m, u, v, c1)) && (spec_parse_headers(
        s.skip(c1),
    ) matches Err(hm) && (e matches HttpError::InvalidRequest(em) && em@ == hm)))
    ||| (spec_parse_request_line(s) matches Ok((m, u, v, c1)) && (spec_parse_headers(
        s.skip(c1),
    ) matches Ok((entries, c2)) && (spec_body_framing(
        crate::headers::entries_map(entries),
    ) matches Err((inv, msg)) && (if inv {
        e matches HttpError::InvalidRequest(em) && em@ == msg
    } else {
        e matches HttpError::Unknown(em) && em@ == msg
    }))))
}

impl Request {
    /// Reads a request from the start of the input, returning it with the
    /// octets consumed: the start line, the header block, and exactly the
    /// advertised body octets, as far as the input holds them.
    pub fn read_from(from: &[u8]) -> (r: Result<(Request, usize), HttpError>)
        ensures
            match r {
                Ok((req, used)) => request_matches(from@, req, used as int, true) && used <= from@.len(),
                Err(e) => request_parse_fails(from@, e),
            },
    {
        let (line, c1) = match HttpRequestLine::read_from(from) {
            Err(e) => {
                return Err(e);
            },
            Ok(x) => x,
        };
        let (headers, c2) = match Headers::read_from(&from[c1..from.len()]) {
            Err(e) => {
                proof {
                    assert(from@.subrange(c1 as int, from@.len() as int) =~= from@.skip(c1 as int));
                }
                return Err(e);
            },
            Ok(x) => x,
        };
        proof {
            assert(from@.subrange(c1 as int, from@.len() as int) =~= from@.skip(c1 as int));
        }
        let rest = &from[c1 + c2..from.len()];
        proof {
            assert(rest@ =~= from@.skip(c1 + c2));
        }
        let body = match Body::read_from(rest, &headers) {
            Err(e) => {
                return Err(e);
            },
            Ok(b) => b,
        };
        let used = match &body {
            None => c1 + c2,
            Some(b) => c1 + c2 + b.content.len(),
        };
        let request = Request {
            method: line.method,
            uri: line.uri,
            version: line.version,
            headers,
            body,
        };
        Ok((request, used))
    }

    /// Reads a request from text, taken as its UTF-8 octets.
    pub fn read_from_str(from: &str) -> (r: Result<Request, HttpError>)
        ensures
            match r {
                Ok(req) => request_matches(from.spec_bytes(), req, 0, false),
                Err(e) => request_parse_fails(from.spec_bytes(), e),
            },
    {
        let bytes = from.as_bytes();
        match Request::read_from(bytes) {
            Ok((req, _)) => Ok(req),
            Err(e) => Err(e),
        }
    }

    /// Serialized, a request is its start line, its header block with a
    /// zero Content-Length added when there is no body and none was set,
    /// and the body octets.
    pub open spec fn spec_serialize(
        m: HttpMethod,
        uri: Seq<char>,
        version: Seq<char>,
        entries: Seq<(Seq<char>, Seq<Seq<char>>)>,
        body: Option<Seq<u8>>,
    ) -> Seq<u8> {
        HttpRequestLine::spec_serialize(m, uri, version) + spec_serialize_headers(
            if body is None && crate::headers::find_name(entries, "Content-Length"@) == -1 {
                spec_add(entries, "Content-Length"@, "0"@)
            } else {
                entries
            },
        ) + (match body {
            Some(b) => b,
            None => Seq::empty(),
        })
    }

    /// Appends the serialized request.
    pub fn write(self, to: &mut Vec<u8>) -> (r: HttpResult<()>)
        requires
            self.headers.wf(),
            self.headers.all_latin1(),
            is_latin1_seq(self.uri@),
            is_latin1_seq(self.version@),
        ensures
            r is Ok,
            final(to)@ == old(to)@ + Self::spec_serialize(
                self.method,
                self.uri@,
                self.version@,
                self.headers.entries_seq(),
                match self.body {
                    Some(b) => Some(b.content@),
                    None => None,
                },
            ),
    {
        let Request { method, uri, version, mut headers, body } = self;
        let mut start_line = HttpRequestLine { method, uri, version };
        let _ = start_line.write(to);
        let has_length = headers.get("Content-Length").is_some();
        proof {
            crate::headers::lemma_entries_map(headers.entries_seq());
            crate::headers::lemma_find_name(headers.entries_seq(), "Content-Length"@);
        }
        if body.is_none() && !has_length {
            let name = String::from_str("Content-Length");
            let value = String::from_str("0");
            headers.add(Header { name, value });
            proof {
                reveal_strlit("Content-Length");
                reveal_strlit("0");
                lemma_add_all_latin1(self.headers.entries_seq(), "Content-Length"@, "0"@);
            }
        }
        let _ = headers.write(to);
        match body {
            None => Ok(()),
            Some(b) => {
                let _ = b.write(to);
                proof {
                    assert(to@ =~= old(to)@ + Self::spec_serialize(
                        self.method,
                        self.uri@,
                        self.version@,
                        self.headers.entries_seq(),
                        Some(b.content@),
                    ));
                }
                Ok(())
            },
        }
    }

    /// Builds a request around a body: its media type and length become
    /// headers, the version is HTTP/1.1.
    pub fn from_body(body: Body, method: HttpMethod, path: &str) -> (r: Request)
        ensures
            r.method == method,
            r.uri@ == path@,
            r.version@ == "HTTP/1.1"@,
            r.headers.wf(),
            r.body matches Some(b) && b == body,
            r.headers.entries_seq() == ({
                let with_ct = match body.content_type {
                    Some(t) => spec_add(Seq::empty(), "Content-Type"@, t@),
                    None => Seq::<(Seq<char>, Seq<Seq<char>>)>::empty(),
                };
                if body.content_length != 0 {
                    spec_add(with_ct, "Content-Length"@, dec_str(body.content_length as nat))
                } else {
                    with_ct
                }
            }),
    {
        let mut headers = Headers::new();
        match &body.content_type {
            Some(content_type) => {
                let name = String::from_str("Content-Type");
                let value = content_type.clone();
                headers.add(Header { name, value });
            },
            None => {},
        }
        if body.content_length != 0 {
            let name = String::from_str("Content-Length");
            let value = u64_to_string(body.content_length);
            headers.add(Header { name, value });
        }
        let uri = path.to_owned();
        let version = Version::HTTP1_1.as_str().to_owned();
        Request { body: Some(body), headers, method, uri, version }
    }

    /// Whether any Connection header value reads keep-alive, letter case
    /// aside.
    #[verifier::loop_isolation(false)]
    pub fn is_connection_alive(&self) -> (r: bool)
        requires
            self.headers.wf(),
        ensures
            r == (self.headers.as_map().contains_key("Connection"@) && exists|i: int|
                0 <= i < self.headers.as_map()["Connection"@].len() && spec_lower(
                    #[trigger] self.headers.as_map()["Connection"@][i],
                ) == "keep-alive"@),
    {
        match self.headers.get("Connection") {
            None => false,
            Some(values) => {
                let ghost vs = self.headers.as_map()["Connection"@];
                let n = values.len();
                let mut i: usize = 0;
                while i < n
                    invariant
                        n == values@.len(),
                        i <= n,
                        vs == values.deep_view(),
                        forall|j: int| 0 <= j < i ==> spec_lower(#[trigger] vs[j]) != "keep-alive"@,
                    decreases n - i,
                {
                    let low = ascii_lower(values[i].as_str());
                    if str_eq(low.as_str(), "keep-alive") {
                        proof {
                            assert(vs[i as int] == values@[i as int]@);
                            assert(spec_lower(vs[i as int]) == "keep-alive"@);
                        }
                        return true;
                    }
                    proof {
                        assert(vs[i as int] == values@[i as int]@);
                    }
                    i = i + 1;
                }
                false
            },
        }
    }

    /// Records that the connection is to be kept alive, unless a header
    /// already says so.
    pub fn set_connection_alive(&mut self)
        requires
            old(self).headers.wf(),
        ensures
            final(self).method == old(self).method,
            final(self).uri == old(self).uri,
            final(self).version == old(self).version,
            final(self).body == old(self).body,
            final(self).headers.wf(),
            final(self).headers.entries_seq() == if old(self).spec_connection_alive() {
                old(self).headers.entries_seq()
            } else {
                spec_add(old(self).headers.entries_seq(), "Connection"@, "keep-alive"@)
            },
    {
        if self.is_connection_alive() {
            return ;
        }
        let name = String::from_str("Connection");
        let value = String::from_str("keep-alive");
        self.headers.add(Header { name, value });
    }

    /// Whether the request asks for the connection to be kept alive.
    pub open spec fn spec_connection_alive(&self) -> bool {
        self.headers.as_map().contains_key("Connection"@) && exists|i: int|
            0 <= i < self.headers.as_map()["Connection"@].len() && spec_lower(
                #[trigger] self.headers.as_map()["Connection"@][i],
            ) == "keep-alive"@
    }
}

/// Adding a header whose name and value can be written as octets keeps
/// the whole collection writable.
pub proof fn lemma_add_all_latin1(
    entries: Seq<(Seq<char>, Seq<Seq<char>>)>,
    name: Seq<char>,
    value: Seq<char>,
)
    requires
        forall|i: int|
            0 <= i < entries.len() ==> is_latin1_seq((#[trigger] entries[i]).0) && forall|j: int|
                0 <= j < entries[i].1.len() ==> is_latin1_seq(#[trigger] entries[i].1[j]),
        is_latin1_seq(name),
        is_latin1_seq(value),
    ensures
        forall|i: int|
            0 <= i < spec_add(entries, name, value).len() ==> is_latin1_seq(
                (#[trigger] spec_add(entries, name, value)[i]).0,
            ) && forall|j: int|
                0 <= j < spec_add(entries, name, value)[i].1.len() ==> is_latin1_seq(
                    #[trigger] spec_add(entries, name, value)[i].1[j],
                ),
{
    let s = spec_add(entries, name, value);
    let k = crate::headers::find_name(entries, name);
    crate::headers::lemma_find_name(entries, name);
    assert forall|i: int| 0 <= i < s.len() implies is_latin1_seq((#[trigger] s[i]).0) && forall|
        j: int,
    |
        0 <= j < s[i].1.len() ==> is_latin1_seq(#[trigger] s[i].1[j]) by {
        if k == -1 {
            if i < entries.len() {
                assert(s[i] == entries[i]);
            } else {
                assert(s[i] == (name, seq![value]));
                assert forall|j: int| 0 <= j < s[i].1.len() implies is_latin1_seq(
                    #[trigger] s[i].1[j],
                ) by {
                    assert(s[i].1[j] == value);
                }
            }
        } else {
            if i != k {
                assert(s[i] == entries[i]);
            } else {
                assert(s[i] == (entries[k].0, entries[k].1.push(value)));
                assert forall|j: int| 0 <= j < s[i].1.len() implies is_latin1_seq(
                    #[trigger] s[i].1[j],
                ) by {
                    if j < entries[k].1.len() {
                        assert(s[i].1[j] == entries[k].1[j]);
                    } else {
                        assert(s[i].1[j] == value);
                    }
                }
            }
        }
    }
}


/// An HTTP response.
#[derive(Debug)]
pub struct Response {
    /// The status code of the response.
    pub status: StatusCode,
    /// The headers of the response.
    pub headers: Headers,
    /// The body of the response, if any.
    pub body: Option<Body>,
}

/// Whether a parsed response is what the octets say.
pub open spec fn response_matches(s: Seq<u8>, resp: Response, used: int, check_used: bool) -> bool {
    spec_parse_response_line(s) matches Ok(((code, v, reason), c1)) && ({
        &&& resp.status == code
        &&& spec_parse_headers(s.skip(c1)) matches Ok((entries, c2)) && ({
            &&& resp.headers.entries_seq() == entries
            &&& resp.headers.wf()
            &&& match (resp.body, spec_body_framing(crate::headers::entries_map(entries))) {
                (None, Ok(None)) => !check_used || used == c1 + c2,
                (Some(b), Ok(Some((len, ct)))) => {
                    &&& b.content_length == len
                    &&& b.content@ == s.skip(c1 + c2).take(min_len(len, s.len() - c1 - c2))
                    &&& match (b.content_type, ct) {
                        (Some(t), Some(c)) => t@ == c,
                        (None, None) => true,
                        _ => false,
                    }
                    &&& !check_used || used == c1 + c2 + b.content@.len()
                },
                _ => false,
            }
        })
    })
}

/// Which error parsing a response out of the octets provokes, and at
/// which stage.
pub open spec fn response_parse_fails(s: Seq<u8>, e: HttpError) -> bool {
    ||| (spec_parse_response_line(s) matches Err(StartLineError::Closed) && e is ConnectionClosed)
    ||| (spec_parse_response_line(s) matches Err(StartLineError::Malformed(msg)) && (
    e matches HttpError::Unknown(em) && em@ == msg))
    ||| (spec_parse_response_line(s) matches Ok((parts, c1)) && (spec_parse_headers(
        s.skip(c1),
    ) matches Err(hm) && (e matches HttpError::InvalidRequest(em) && em@ == hm)))
    ||| (spec_parse_response_line(s) matches Ok((parts, c1)) && (spec_parse_headers(
        s.skip(c1),
    ) matches Ok((entries, c2)) && (spec_body_framing(
        crate::headers::entries_map(entries),
    ) matches Err((inv, msg)) && (if inv {
        e matches HttpError::InvalidRequest(em) && em@ == msg
    } else {
        e matches HttpError::Unknown(em) && em@ == msg
    }))))
}

impl Response {
    /// Serialized, a response is its status line over HTTP/1.1, its
    /// header block with a zero Content-Length added when there is no
    /// body and none was set, and the body octets.
    pub open spec fn spec_serialize(
        status: StatusCode,
        entries: Seq<(Seq<char>, Seq<Seq<char>>)>,
        body: Option<Seq<u8>>,
    ) -> Seq<u8> {
        HttpResponseLine::spec_serialize("HTTP/1.1"@, status) + spec_serialize_headers(
            if body is None && crate::headers::find_name(entries, "Content-Length"@) == -1 {
                spec_add(entries, "Content-Length"@, "0"@)
            } else {
                entries
            },
        ) + (match body {
            Some(b) => b,
            None => Seq::empty(),
        })
    }

    /// Appends the serialized response; when there is no body and the
    /// caller set no Content-Length, a zero one is added to the response
    /// first.
    pub fn write(&mut self, to: &mut Vec<u8>) -> (r: HttpResult<()>)
        requires
            old(self).headers.wf(),
            old(self).headers.all_latin1(),
        ensures
            r is Ok,
            final(self).status == old(self).status,
            final(self).body == old(self).body,
            final(self).headers.wf(),
            final(self).headers.entries_seq() == if old(self).body is None
                && crate::headers::find_name(
                old(self).headers.entries_seq(),
                "Content-Length"@,
            ) == -1 {
                spec_add(old(self).headers.entries_seq(), "Content-Length"@, "0"@)
            } else {
                old(self).headers.entries_seq()
            },
            final(to)@ == old(to)@ + Self::spec_serialize(
                old(self).status,
                old(self).headers.entries_seq(),
                match old(self).body {
                    Some(b) => Some(b.content@),
                    None => None,
                },
            ),
    {
        let version = Version::HTTP1_1.as_str().to_owned();
        proof {
            reveal_strlit("HTTP/1.1");
            assert(is_latin1_seq("HTTP/1.1"@));
        }
        let mut start_line = HttpResponseLine {
            http_version: version,
            status_code: self.status,
            reason_phrase: String::new(),
        };
        let _ = start_line.write(to);
        let has_length = self.headers.get("Content-Length").is_some();
        proof {
            crate::headers::lemma_entries_map(self.headers.entries_seq());
            crate::headers::lemma_find_name(self.headers.entries_seq(), "Content-Length"@);
        }
        if self.body.is_none() && !has_length {
            let name = String::from_str("Content-Length");
            let value = String::from_str("0");
            proof {
                reveal_strlit("Content-Length");
                reveal_strlit("0");
                lemma_add_all_latin1(self.headers.entries_seq(), "Content-Length"@, "0"@);
            }
            self.headers.add(Header { name, value });
        }
        let _ = self.headers.write(to);
        match &self.body {
            None => Ok(()),
            Some(b) => {
                let _ = b.write(to);
                proof {
                    assert(to@ =~= old(to)@ + Self::spec_serialize(
                        old(self).status,
                        old(self).headers.entries_seq(),
                        Some(b.content@),
                    ));
                }
                Ok(())
            },
        }
    }

    /// A response with the given status code, no headers, and no body.
    pub fn from_status(status: StatusCode) -> (r: Response)
        ensures
            r.status == status,
            r.headers.entries_seq() =~= Seq::<(Seq<char>, Seq<Seq<char>>)>::empty(),
            r.headers.wf(),
            r.body is None,
    {
        let headers = Headers::new();
        Response { status, headers, body: None }
    }

    /// Reads a response from the start of the input, returning it with
    /// the octets consumed.
    pub fn read_from(from: &[u8]) -> (r: Result<(Response, usize), HttpError>)
        ensures
            match r {
                Ok((resp, used)) => response_matches(from@, resp, used as int, true) && used
                    <= from@.len(),
                Err(e) => response_parse_fails(from@, e),
            },
    {
        let (line, c1) = match HttpResponseLine::read_from(from) {
            Err(e) => {
                return Err(e);
            },
            Ok(x) => x,
        };
        let (headers, c2) = match Headers::read_from(&from[c1..from.len()]) {
            Err(e) => {
                proof {
                    assert(from@.subrange(c1 as int, from@.len() as int) =~= from@.skip(c1 as int));
                }
                return Err(e);
            },
            Ok(x) => x,
        };
        proof {
            assert(from@.subrange(c1 as int, from@.len() as int) =~= from@.skip(c1 as int));
        }
        let rest = &from[c1 + c2..from.len()];
        proof {
            assert(rest@ =~= from@.skip(c1 + c2));
        }
        let body = match Body::read_from(rest, &headers) {
            Err(e) => {
                return Err(e);
            },
            Ok(b) => b,
        };
        let used = match &body {
            None => c1 + c2,
            Some(b) => c1 + c2 + b.content.len(),
        };
        let response = Response { body, status: line.status_code, headers };
        Ok((response, used))
    }

    /// A plain-text OK response holding the given text as its body.
    pub fn from_str(content: &str) -> (r: Response)
        ensures
            r.status == StatusCode::OK,
            r.headers.entries_seq() =~= Seq::<(Seq<char>, Seq<Seq<char>>)>::empty(),
            r.headers.wf(),
            r.body matches Some(b) && b.content@ == content.spec_bytes() && b.content_length
                == content.spec_bytes().len() && (b.content_type matches Some(t) && t@
                == "text/plain"@),
    {
        let bytes = content.as_bytes_vec();
        let len = bytes.len() as u64;
        let body = Body::new(Some(mime_text_plain()), len, bytes);
        Response { status: StatusCode::OK, headers: Headers::new(), body: Some(body) }
    }
}

/// Every method token can be written back as octets.
pub proof fn lemma_method_str_latin1(m: HttpMethod)
    ensures
        is_latin1_seq(spec_method_str(m)),
{
    reveal_strlit("GET");
    reveal_strlit("HEAD");
    reveal_strlit("POST");
    reveal_strlit("PUT");
    reveal_strlit("DELETE");
    reveal_strlit("CONNECT");
    reveal_strlit("OPTIONS");
    reveal_strlit("TRACE");
    reveal_strlit("PATCH");
}


// The response round trip: a response serialized over HTTP/1.1 parses
// back to the same status, the same header entries, and the same body
// octets.

/// A reason phrase that survives the round trip: non-empty, writable as
/// octets, and free of line breaks.
pub open spec fn reason_ok(r: Seq<char>) -> bool {
    &&& r.len() >= 1
    &&& forall|i: int|
        0 <= i < r.len() ==> (((#[trigger] r[i]) as u32) < 0x100 && r[i] as u8 != CR && r[i] as u8
            != LF)
}

/// Every registered reason phrase survives the round trip.
#[verifier::rlimit(100)]
pub proof fn lemma_reasons_ok(s: StatusCode)
    ensures
        reason_ok(spec_reason(s)),
{
    match s {
        StatusCode::Continue => {
            reveal_strlit("Continue");
            assert(reason_ok("Continue"@));
        },
        StatusCode::SwitchingProtocols => {
            reveal_strlit("Switching Protocols");
            assert(reason_ok("Switching Protocols"@));
        },
        StatusCode::OK => {
            reveal_strlit("OK");
            assert(reason_ok("OK"@));
        },
        StatusCode::Created => {
            reveal_strlit("Created");
            assert(reason_ok("Created"@));
        },
        StatusCode::Accepted => {
            reveal_strlit("Accepted");
            assert(reason_ok("Accepted"@));
        },
        StatusCode::NonAuthoritativeInformation => {
            reveal_strlit("Non-Authoritative Information");
            assert(reason_ok("Non-Authoritative Information"@));
        },
        StatusCode::NoContent => {
            reveal_strlit("No Content");
            assert(reason_ok("No Content"@));
        },
        StatusCode::ResetContent => {
            reveal_strlit("Reset Content");
            assert(reason_ok("Reset Content"@));
        },
        StatusCode::PartialContent => {
            reveal_strlit("Partial Content");
            assert(reason_ok("Partial Content"@));
        },
        StatusCode::MultipleChoices => {
            reveal_strlit("Multiple Choices");
            assert(reason_ok("Multiple Choices"@));
        },
        StatusCode::MovedPermanently => {
            reveal_strlit("Moved Permanently");
            assert(reason_ok("Moved Permanently"@));
        },
        StatusCode::Found => {
            reveal_strlit("Found");
            assert(reason_ok("Found"@));
        },
        StatusCode::SeeOther => {
            reveal_strlit("See Other");
            assert(reason_ok("See Other"@));
        },
        StatusCode::NotModified => {
            reveal_strlit("Not Modified");
            assert(reason_ok("Not Modified"@));
        },
        StatusCode::UseProxy => {
            reveal_strlit("Use Proxy");
            assert(reason_ok("Use Proxy"@));
        },
        StatusCode::TemporaryRedirect => {
            reveal_strlit("Temporary Redirect");
            assert(reason_ok("Temporary Redirect"@));
        },
        StatusCode::BadRequest => {
            reveal_strlit("Bad Request");
            assert(reason_ok("Bad Request"@));
        },
        StatusCode::Unauthorized => {
            reveal_strlit("Unauthorized");
            assert(reason_ok("Unauthorized"@));
        },
        StatusCode::PaymentRequired => {
            reveal_strlit("Payment Required");
            assert(reason_ok("Payment Required"@));
        },
        StatusCode::Forbidden => {
            reveal_strlit("Forbidden");
            assert(reason_ok("Forbidden"@));
        },
        StatusCode::NotFound => {
            reveal_strlit("Not Found");
            assert(reason_ok("Not Found"@));
        },
        StatusCode::MethodNotAllowed => {
            reveal_strlit("Method Not Allowed");
            assert(reason_ok("Method Not Allowed"@));
        },
        StatusCode::NotAcceptable => {
            reveal_strlit("Not Acceptable");
            assert(reason_ok("Not Acceptable"@));
        },
        StatusCode::ProxyAuthenticationRequired => {
            reveal_strlit("Proxy Authentication Required");
            assert(reason_ok("Proxy Authentication Required"@));
        },
        StatusCode::RequestTimeOut => {
            reveal_strlit("Request Time-out");
            assert(reason_ok("Request Time-out"@));
        },
        StatusCode::Conflict => {
            reveal_strlit("Conflict");
            assert(reason_ok("Conflict"@));
        },
        StatusCode::Gone => {
            reveal_strlit("Gone");
            assert(reason_ok("Gone"@));
        },
        StatusCode::LengthRequired => {
            reveal_strlit("Length Required");
            assert(reason_ok("Length Required"@));
        },
        StatusCode::PreconditionFailed => {
            reveal_strlit("Precondition Failed");
            assert(reason_ok("Precondition Failed"@));
        },
        StatusCode::RequestEntityTooLarge => {
            reveal_strlit("Request Entity Too Large");
            assert(reason_ok("Request Entity Too Large"@));
        },
        StatusCode::RequestURITooLarge => {
            reveal_strlit("Request-URI Too Large");
            assert(reason_ok("Request-URI Too Large"@));
        },
        StatusCode::UnsupportedMediaType => {
            reveal_strlit("Unsupported Media Type");
            assert(reason_ok("Unsupported Media Type"@));
        },
        StatusCode::RequestedRangeNotSatisfiable => {
            reveal_strlit("Requested range not satisfiable");
            assert(reason_ok("Requested range not satisfiable"@));
        },
        StatusCode::ExpectationFailed => {
            reveal_strlit("Expectation Failed");
            assert(reason_ok("Expectation Failed"@));
        },
        StatusCode::InternalServerError => {
            reveal_strlit("Internal Server Error");
            assert(reason_ok("Internal Server Error"@));
        },
        StatusCode::NotImplemented => {
            reveal_strlit("Not Implemented");
            assert(reason_ok("Not Implemented"@));
        },
        StatusCode::BadGateway => {
            reveal_strlit("Bad Gateway");
            assert(reason_ok("Bad Gateway"@));
        },
        StatusCode::ServiceUnavailable => {
            reveal_strlit("Service Unavailable");
            assert(reason_ok("Service Unavailable"@));
        },
        StatusCode::GatewayTimeOut => {
            reveal_strlit("Gateway Time-out");
            assert(reason_ok("Gateway Time-out"@));
        },
        StatusCode::HTTPVersionNotSupported => {
            reveal_strlit("HTTP Version not supported");
            assert(reason_ok("HTTP Version not supported"@));
        },
        StatusCode::ExtensionCode(_) => {
            reveal_strlit("Extesion code");
            assert(reason_ok("Extesion code"@));
        },
    }
}

/// A serialized status line over HTTP/1.1, followed by anything, parses
/// back to its status, version and reason, consuming exactly the line.
#[verifier::rlimit(100)]
pub proof fn lemma_response_line_round_trip(status: StatusCode, rest: Seq<u8>)
    requires
        spec_status_of(spec_status_code(status) as usize) == status,
        100 <= spec_status_code(status) <= 999,
    ensures
        spec_parse_response_line(HttpResponseLine::spec_serialize("HTTP/1.1"@, status) + rest)
            == Ok::<_, StartLineError>(
            ((status, "HTTP/1.1"@, spec_reason(status)), HttpResponseLine::spec_serialize(
                "HTTP/1.1"@,
                status,
            ).len() as int),
        ),
{
    lemma_reasons_ok(status);
    reveal_strlit("HTTP/1.1");
    reveal_strlit("HTTP/");
    let code = spec_status_code(status) as nat;
    crate::text::lemma_dec_str_props(code);
    let reason = spec_reason(status);
    let vb = latin1_bytes("HTTP/1.1"@);
    let cb = latin1_bytes(dec_str(code));
    let rb = latin1_bytes(reason);
    let line = HttpResponseLine::spec_serialize("HTTP/1.1"@, status);
    let s = line + rest;
    assert(("HTTP/1.1"@).len() == 8);
    assert(vb.len() == 8);
    assert(cb.len() == 3);
    assert(s =~= vb + seq![0x20u8] + cb + seq![0x20u8] + rb + seq![CR, LF] + rest);
    // The version segment ends at the first space.
    assert(s[8] == 0x20);
    assert forall|j: int| 0 <= j < 8 implies (#[trigger] s[j]) != 0x20 by {
        assert(s[j] == ("HTTP/1.1"@)[j] as u8);
    }
    crate::text::lemma_until_at(s, 0x20, 8);
    assert(segment_end(s, 0x20) == 9);
    assert(latin1(s.take(9)) =~= "HTTP/1.1"@ + seq![' ']) by {
        assert forall|j: int| 0 <= j < 9 implies latin1(s.take(9))[j] == ("HTTP/1.1"@ + seq![
            ' ',
        ])[j] by {
            if j < 8 {
                assert(s[j] == ("HTTP/1.1"@)[j] as u8);
                assert((("HTTP/1.1"@)[j] as u32) < 0x100);
            } else {
                assert(s[j] == 0x20);
            }
        }
    }
    let vstr = trim_end_ws(latin1(s.take(9)));
    assert(("HTTP/1.1"@ + seq![' ']).last() == ' ');
    assert(is_ws_char(' '));
    assert(("HTTP/1.1"@ + seq![' ']).drop_last() =~= "HTTP/1.1"@);
    assert(("HTTP/1.1"@).last() == '1');
    assert(!is_ws_char('1'));
    assert(trim_end_ws("HTTP/1.1"@) == "HTTP/1.1"@);
    assert(trim_end_ws("HTTP/1.1"@ + seq![' ']) == trim_end_ws("HTTP/1.1"@));
    assert(vstr == "HTTP/1.1"@);
    assert(spec_valid_version("HTTP/1.1"@)) by {
        assert(is_latin1_seq("HTTP/1.1"@));
        assert(("HTTP/1.1"@).take(5) =~= "HTTP/"@);
        assert forall|i: int| 5 <= i < 8 implies (#[trigger] ("HTTP/1.1"@)[i]) != '/' by {}
        let vrest = ("HTTP/1.1"@).skip(5);
        assert(vrest =~= seq!['1', '.', '1']);
        assert(latin1_bytes(vrest) =~= seq![0x31u8, 0x2eu8, 0x31u8]);
        crate::text::lemma_until_at(latin1_bytes(vrest), 0x2e, 1);
        assert(vrest.take(1) =~= seq!['1']);
        assert(vrest.skip(2) =~= seq!['1']);
        assert(latin1_bytes(seq!['1']) =~= seq![0x31u8]);
        assert(char_digits(seq!['1']));
        assert(crate::text::digits_val(seq![0x31u8]) == 1) by {
            assert(seq![0x31u8].drop_last() =~= Seq::<u8>::empty());
            assert(seq![0x31u8].last() == 0x31u8);
            assert(crate::text::digits_val(Seq::<u8>::empty()) == 0);
            assert(crate::text::digits_val(seq![0x31u8]) == crate::text::digits_val(
                seq![0x31u8].drop_last(),
            ) * 10 + (seq![0x31u8].last() - 0x30));
        }
    }
    // The code segment is the three digits and a space.
    let s1 = s.skip(9);
    assert(s1 =~= cb + seq![0x20u8] + rb + seq![CR, LF] + rest);
    assert(s1[3] == 0x20);
    assert forall|j: int| 0 <= j < 3 implies (#[trigger] s1[j]) != 0x20 by {
        assert(s1[j] == cb[j]);
        assert(cb[j] == dec_str(code)[j] as u8);
        assert(crate::text::is_digit_byte(dec_str(code)[j] as u8));
    }
    crate::text::lemma_until_at(s1, 0x20, 3);
    assert(segment_end(s1, 0x20) == 4);
    crate::text::lemma_latin1_roundtrip_chars(dec_str(code));
    assert(latin1(s1.take(4)) =~= dec_str(code) + seq![' ']) by {
        assert forall|j: int| 0 <= j < 4 implies latin1(s1.take(4))[j] == (dec_str(code) + seq![
            ' ',
        ])[j] by {
            if j < 3 {
                assert(s1.take(4)[j] == cb[j]);
                assert(latin1(s1.take(4))[j] == cb[j] as char);
                assert(latin1(cb)[j] == cb[j] as char);
                assert(latin1(cb)[j] == dec_str(code)[j]);
            } else {
                assert(s1[j] == 0x20);
            }
        }
    }
    let cstr = trim_end_ws(latin1(s1.take(4)));
    assert((dec_str(code) + seq![' ']).last() == ' ');
    assert((dec_str(code) + seq![' ']).drop_last() =~= dec_str(code));
    assert(dec_str(code).last() == dec_str(code)[2]);
    assert(!is_ws_char(dec_str(code)[2])) by {
        let b = dec_str(code)[2] as u8;
        assert(crate::text::is_digit_byte(b));
        assert(latin1(cb)[2] == cb[2] as char);
        assert(latin1(cb)[2] == dec_str(code)[2]);
        assert(cb[2] == b);
        assert(dec_str(code)[2] == (b as char));
        assert(((b as char) as u32) == b);
    }
    assert(trim_end_ws(dec_str(code)) == dec_str(code));
    assert(trim_end_ws(dec_str(code) + seq![' ']) == trim_end_ws(dec_str(code)));
    assert(cstr == dec_str(code));
    assert(char_digits(cstr) && char_digits_val(cstr) == code);
    // The reason segment runs to the line feed.
    let s2 = s1.skip(4);
    assert(s2 =~= rb + seq![CR, LF] + rest);
    assert(s2[rb.len() as int + 1] == LF);
    assert forall|j: int| 0 <= j < rb.len() + 1 implies (#[trigger] s2[j]) != LF by {
        if j < rb.len() {
            assert(s2[j] == reason[j] as u8);
            assert(reason[j] as u8 != LF);
        } else {
            assert(s2[j] == CR);
        }
    }
    crate::text::lemma_until_at(s2, LF, rb.len() as int + 1);
    assert(segment_end(s2, LF) == rb.len() + 2);
    assert(s2.take(rb.len() as int + 2).drop_last().drop_last() =~= rb);
    crate::text::lemma_latin1_roundtrip_chars(reason);
    assert(latin1(rb) == reason);
    assert(line.len() == 8 + 1 + 3 + 1 + rb.len() + 2);
    assert(9 + segment_end(s1, 0x20) + segment_end(s2, LF) == line.len());
}


/// The law of body-length discipline: a request parsed with its whole
/// body present consumes its start line, its header block, and exactly
/// the advertised number of body octets, so on a persistent connection
/// the next request begins right at the consumed count.
pub proof fn lemma_read_consumes_advertised(s: Seq<u8>, req: Request, used: int)
    requires
        request_matches(s, req, used, true),
        req.body matches Some(b) ==> b.content@.len() == b.content_length,
    ensures
        req.body matches Some(b) ==> spec_parse_request_line(s) matches Ok((m, u, v, c1)) && (
        spec_parse_headers(s.skip(c1)) matches Ok((e, c2)) && used == c1 + c2
            + b.content_length),
{
}

/// The law of the response round trip: a response serialized from a
/// status, headers and body parses back to the same status, the same
/// header entries (with the zero Content-Length that serialization adds
/// when there is no body and none was set), and exactly the same body
/// octets.
#[verifier::rlimit(100)]
pub proof fn lemma_response_round_trip(
    status: StatusCode,
    entries: Seq<(Seq<char>, Seq<Seq<char>>)>,
    body: Option<Seq<u8>>,
)
    requires
        spec_status_of(spec_status_code(status) as usize) == status,
        100 <= spec_status_code(status) <= 999,
        crate::headers::entries_ok(entries),
        crate::headers::find_name(entries, "Transfer-Encoding"@) == -1,
        crate::headers::find_name(entries, "Content-Type"@) == -1,
        body is None ==> crate::headers::find_name(entries, "Content-Length"@) == -1,
        body matches Some(b) ==> {
            &&& b.len() >= 1
            &&& b.len() <= usize::MAX
            &&& crate::headers::find_name(entries, "Content-Length"@) >= 0
            &&& entries[crate::headers::find_name(entries, "Content-Length"@)].1 == seq![
                dec_str(b.len()),
            ]
        },
    ensures
        ({
            let s = Response::spec_serialize(status, entries, body);
            let eff = if body is None && crate::headers::find_name(
                entries,
                "Content-Length"@,
            ) == -1 {
                spec_add(entries, "Content-Length"@, "0"@)
            } else {
                entries
            };
            let line_len = HttpResponseLine::spec_serialize("HTTP/1.1"@, status).len() as int;
            let hdr_len = spec_serialize_headers(eff).len() as int;
            &&& spec_parse_response_line(s) == Ok::<_, StartLineError>(
                ((status, "HTTP/1.1"@, spec_reason(status)), line_len),
            )
            &&& spec_parse_headers(s.skip(line_len)) == Ok::<_, Seq<char>>((eff, hdr_len))
            &&& spec_body_framing(crate::headers::entries_map(eff)) == Ok::<
                _,
                (bool, Seq<char>),
            >(
                match body {
                    None => None,
                    Some(b) => Some((b.len() as int, None::<Seq<char>>)),
                },
            )
            &&& match body {
                Some(b) => s.skip(line_len + hdr_len) =~= b,
                None => s.len() == line_len + hdr_len,
            }
        }),
{
    reveal_strlit("Content-Length");
    reveal_strlit("Transfer-Encoding");
    reveal_strlit("Content-Type");
    reveal_strlit("0");
    let cl = "Content-Length"@;
    let te = "Transfer-Encoding"@;
    let ct = "Content-Type"@;
    assert(cl.len() == 14 && te.len() == 17 && ct.len() == 12);
    crate::headers::lemma_find_name(entries, cl);
    crate::headers::lemma_find_name(entries, te);
    crate::headers::lemma_find_name(entries, ct);
    let eff = if body is None && crate::headers::find_name(entries, cl) == -1 {
        spec_add(entries, cl, "0"@)
    } else {
        entries
    };
    // The effective entries are well formed and serializable.
    assert(crate::headers::entries_ok(eff)) by {
        if body is None {
            assert(eff == entries.push((cl, seq!["0"@])));
            assert(crate::headers::name_ok(cl)) by {
                assert forall|i: int| 0 <= i < cl.len() implies ((#[trigger] cl[i]) as u32)
                    < 0x100 && crate::text::is_token_byte(cl[i] as u8) by {}
                assert forall|i: int|
                    0 <= i < cl.len() && (0x61 <= ((#[trigger] cl[i]) as u32)
                        <= 0x7a) implies i > 0 && !crate::headers::norm_trigger(cl[i - 1]) by {}
                crate::headers::lemma_normalize_identity(cl);
            }
            assert(crate::headers::value_ok("0"@)) by {
                assert((("0"@)[0] as u32) == 0x30);
            }
            assert forall|i: int, j: int| 0 <= i < j < eff.len() implies (#[trigger] eff[i]).0
                != (#[trigger] eff[j]).0 by {
                assert(eff[i] == if i < entries.len() {
                    entries[i]
                } else {
                    (cl, seq!["0"@])
                });
                assert(eff[j] == if j < entries.len() {
                    entries[j]
                } else {
                    (cl, seq!["0"@])
                });
            }
            assert forall|i: int|
                0 <= i < eff.len() implies crate::headers::name_ok((#[trigger] eff[i]).0)
                && eff[i].1.len() >= 1 && (forall|j: int|
                0 <= j < eff[i].1.len() ==> crate::headers::value_ok(#[trigger] eff[i].1[j])) by {
                if i < entries.len() {
                    assert(eff[i] == entries[i]);
                } else {
                    assert(eff[i] == (cl, seq!["0"@]));
                    assert forall|j: int|
                        0 <= j < eff[i].1.len() implies crate::headers::value_ok(
                        #[trigger] eff[i].1[j]) by {
                        assert(eff[i].1[j] == "0"@);
                    }
                }
            }
        }
    }
    // The serialized response decomposes into its three parts.
    let line = HttpResponseLine::spec_serialize("HTTP/1.1"@, status);
    let hdr = spec_serialize_headers(eff);
    let body_bytes = match body {
        Some(b) => b,
        None => Seq::<u8>::empty(),
    };
    let s = Response::spec_serialize(status, entries, body);
    assert(s =~= line + (hdr + body_bytes));
    lemma_response_line_round_trip(status, hdr + body_bytes);
    assert(s.skip(line.len() as int) =~= hdr + body_bytes);
    crate::headers::lemma_headers_round_trip_rest(eff, body_bytes);
    assert(s.skip(line.len() as int + hdr.len() as int) =~= body_bytes);
    // The framing of the parsed headers matches the body.
    crate::headers::lemma_entries_map(eff);
    crate::headers::lemma_find_name(eff, cl);
    crate::headers::lemma_find_name(eff, te);
    crate::headers::lemma_find_name(eff, ct);
    let m = crate::headers::entries_map(eff);
    assert(crate::headers::find_name(eff, te) == -1) by {
        let k = crate::headers::find_name(eff, te);
        if k != -1 {
            assert(eff[k].0 == te);
            if k < entries.len() {
                assert(entries[k] == eff[k]);
                assert(entries[k].0 != te);
            }
        }
    }
    assert(crate::headers::find_name(eff, ct) == -1) by {
        let k = crate::headers::find_name(eff, ct);
        if k != -1 {
            assert(eff[k].0 == ct);
            if k < entries.len() {
                assert(entries[k] == eff[k]);
                assert(entries[k].0 != ct);
            }
        }
    }
    assert(!m.contains_key(te));
    assert(!m.contains_key(ct));
    match body {
        None => {
            crate::headers::lemma_find_name_unique(eff, cl, entries.len() as int);
            assert(m.contains_key(cl));
            assert(m[cl] == eff[entries.len() as int].1);
            assert(m[cl] =~= seq!["0"@]);
            assert(char_digits("0"@)) by {
                assert((("0"@)[0] as u32) == 0x30);
            }
            assert(char_digits_val("0"@) == 0) by {
                assert(latin1_bytes("0"@) =~= seq![0x30u8]);
                assert(seq![0x30u8].drop_last() =~= Seq::<u8>::empty());
                assert(crate::text::digits_val(seq![0x30u8]) == crate::text::digits_val(
                    seq![0x30u8].drop_last(),
                ) * 10 + (seq![0x30u8].last() - 0x30));
            }
            assert(spec_body_framing(m) == Ok::<_, (bool, Seq<char>)>(None::<
                (int, Option<Seq<char>>),
            >));
        },
        Some(b) => {
            let i = crate::headers::find_name(entries, cl);
            assert(m.contains_key(cl));
            assert(m[cl] == entries[i].1);
            crate::text::lemma_dec_str_props(b.len());
            assert(m[cl].len() == 1);
            assert(m[cl][0] == dec_str(b.len()));
            assert(char_digits_val(dec_str(b.len())) == b.len());
            assert(spec_body_framing(m) == Ok::<_, (bool, Seq<char>)>(
                Some((b.len() as int, None::<Seq<char>>)),
            ));
        },
    }
}

} // verus!
