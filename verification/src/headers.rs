use crate::errors::HttpError;
use crate::errors::HttpResult;
use crate::text::is_field_byte;
use crate::text::is_ows_byte;
use crate::text::is_token_byte;
use crate::text::byte_is_field;
use crate::text::byte_is_ows;
use crate::text::byte_is_token;
use crate::text::bytes_to_string;
use crate::text::is_latin1_seq;
use crate::text::latin1;
use crate::text::latin1_bytes;
use crate::text::push_char;
use crate::text::string_to_bytes;
use vstd::prelude::*;

verus! {

broadcast use vstd::string::group_string_axioms;

/// Carriage return.
pub const CR: u8 = 0x0d;

/// Line feed.
pub const LF: u8 = 0x0a;

// Field name normalization: an ASCII letter or digit is written in upper
// case exactly when it stands at the start of the name or directly after
// a dash, an underscore, or a space; every other character is preserved.

/// Whether the character is an ASCII letter or digit.
pub open spec fn is_alnum_char(c: char) -> bool {
    (0x30 <= c as u32 <= 0x39) || (0x41 <= c as u32 <= 0x5a) || (0x61 <= c as u32 <= 0x7a)
}

/// The upper-case form of an ASCII letter; other characters are unchanged.
pub open spec fn upper_char(c: char) -> char {
    if 0x61 <= c as u32 <= 0x7a {
        (((c as u32) - 0x20) as u8) as char
    } else {
        c
    }
}

/// Whether a letter or digit directly after this character is written in
/// upper case.
pub open spec fn norm_trigger(c: char) -> bool {
    c == '-' || c == '_' || c == ' '
}

/// The normalized form of a header field name: position by position, a
/// letter or digit at the start or directly after a trigger is
/// upper-cased, and everything else is kept.
pub open spec fn spec_normalize_name(s: Seq<char>) -> Seq<char> {
    Seq::new(
        s.len(),
        |i: int|
            if is_alnum_char(s[i]) && (i == 0 || norm_trigger(s[i - 1])) {
                upper_char(s[i])
            } else {
                s[i]
            },
    )
}

/// Normalization changes nothing in a name whose lower-case letters all
/// stand directly after a letter or digit.
pub proof fn lemma_normalize_identity(s: Seq<char>)
    requires
        forall|i: int|
            0 <= i < s.len() && (0x61 <= ((#[trigger] s[i]) as u32) <= 0x7a) ==> i > 0
                && !norm_trigger(s[i - 1]),
    ensures
        spec_normalize_name(s) == s,
{
    assert forall|i: int| 0 <= i < s.len() implies spec_normalize_name(s)[i] == s[i] by {
        if is_alnum_char(s[i]) && (i == 0 || norm_trigger(s[i - 1])) {
            assert(!(0x61 <= (s[i] as u32) <= 0x7a));
            assert(upper_char(s[i]) == s[i]);
        }
    }
    assert(spec_normalize_name(s) =~= s);
}

/// Rewrites a header field name into its normalized form.
#[verifier::loop_isolation(false)]
pub fn normalize_header_name(name: String) -> (r: String)
    ensures
        r@ == spec_normalize_name(name@),
{
    let n = name.as_str().unicode_len();
    let mut r = String::new();
    let mut i: usize = 0;
    proof {
        assert(r@ =~= spec_normalize_name(name@).take(0));
    }
    while i < n
        invariant
            n == name@.len(),
            i <= n,
            r@ == spec_normalize_name(name@).take(i as int),
        decreases n - i,
    {
        let c = name.as_str().get_char(i);
        let u = c as u32;
        let alnum = (0x30 <= u && u <= 0x39) || (0x41 <= u && u <= 0x5a) || (0x61 <= u && u
            <= 0x7a);
        let triggered = if i == 0 {
            true
        } else {
            let p = name.as_str().get_char(i - 1);
            p == '-' || p == '_' || p == ' '
        };
        let pushed: char = if alnum && triggered {
            if 0x61 <= u && u <= 0x7a {
                ((u - 0x20) as u8) as char
            } else {
                c
            }
        } else {
            c
        };
        assert(pushed == spec_normalize_name(name@)[i as int]);
        push_char(&mut r, pushed);
        i = i + 1;
        proof {
            assert(spec_normalize_name(name@).take(i as int) =~= spec_normalize_name(
                name@,
            ).take(i - 1).push(spec_normalize_name(name@)[i - 1]));
        }
    }
    proof {
        assert(spec_normalize_name(name@).take(n as int) =~= spec_normalize_name(name@));
    }
    r
}

// Runs of octets from a fixed class at the start of a sequence.

/// How many octets at the start of the sequence are token octets.
pub open spec fn token_run(s: Seq<u8>) -> int
    decreases s.len(),
{
    if s.len() == 0 {
        0
    } else if !is_token_byte(s[0]) {
        0
    } else {
        1 + token_run(s.skip(1))
    }
}

/// How many octets at the start of the sequence are optional white space.
pub open spec fn ows_run(s: Seq<u8>) -> int
    decreases s.len(),
{
    if s.len() == 0 {
        0
    } else if !is_ows_byte(s[0]) {
        0
    } else {
        1 + ows_run(s.skip(1))
    }
}

/// The run of token octets is the unique maximal all-token prefix.
pub proof fn lemma_token_run(s: Seq<u8>)
    ensures
        0 <= token_run(s) <= s.len(),
        forall|j: int| 0 <= j < token_run(s) ==> is_token_byte(#[trigger] s[j]),
        token_run(s) < s.len() ==> !is_token_byte(s[token_run(s)]),
    decreases s.len(),
{
    if s.len() > 0 && is_token_byte(s[0]) {
        lemma_token_run(s.skip(1));
        assert forall|j: int| 0 <= j < token_run(s) implies is_token_byte(#[trigger] s[j]) by {
            if j > 0 {
                assert(is_token_byte(s.skip(1)[j - 1]));
            }
        }
        if token_run(s) < s.len() {
            assert(s.skip(1)[token_run(s) - 1] == s[token_run(s)]);
        }
    }
}

/// The run of white-space octets is the unique maximal all-white prefix.
pub proof fn lemma_ows_run(s: Seq<u8>)
    ensures
        0 <= ows_run(s) <= s.len(),
        forall|j: int| 0 <= j < ows_run(s) ==> is_ows_byte(#[trigger] s[j]),
        ows_run(s) < s.len() ==> !is_ows_byte(s[ows_run(s)]),
    decreases s.len(),
{
    if s.len() > 0 && is_ows_byte(s[0]) {
        lemma_ows_run(s.skip(1));
        assert forall|j: int| 0 <= j < ows_run(s) implies is_ows_byte(#[trigger] s[j]) by {
            if j > 0 {
                assert(is_ows_byte(s.skip(1)[j - 1]));
            }
        }
        if ows_run(s) < s.len() {
            assert(s.skip(1)[ows_run(s) - 1] == s[ows_run(s)]);
        }
    }
}

/// Where the first CRLF starts in the sequence, or -1 where there is none.
pub open spec fn crlf_pos(s: Seq<u8>) -> int
    decreases s.len(),
{
    if s.len() < 2 {
        -1
    } else if s[0] == CR && s[1] == LF {
        0
    } else {
        let r = crlf_pos(s.skip(1));
        if r == -1 {
            -1
        } else {
            r + 1
        }
    }
}

/// What the first CRLF position means: every earlier position starts no
/// CRLF, and the position itself does.
pub proof fn lemma_crlf_pos(s: Seq<u8>)
    ensures
        crlf_pos(s) == -1 || 0 <= crlf_pos(s) <= s.len() - 2,
        crlf_pos(s) >= 0 ==> s[crlf_pos(s)] == CR && s[crlf_pos(s) + 1] == LF,
        forall|j: int|
            0 <= j < crlf_pos(s) || (crlf_pos(s) == -1 && 0 <= j < s.len() - 1) ==> !((
            #[trigger] s[j]) == CR && s[j + 1] == LF),
    decreases s.len(),
{
    if s.len() >= 2 && !(s[0] == CR && s[1] == LF) {
        lemma_crlf_pos(s.skip(1));
        let r = crlf_pos(s.skip(1));
        assert forall|j: int|
            0 <= j < crlf_pos(s) || (crlf_pos(s) == -1 && 0 <= j < s.len() - 1) implies !((
        #[trigger] s[j]) == CR && s[j + 1] == LF) by {
            if j > 0 {
                assert(s.skip(1)[j - 1] == s[j]);
                assert(s.skip(1)[j] == s[j + 1]);
            }
        }
        if r >= 0 {
            assert(s.skip(1)[r] == s[r + 1]);
            assert(s.skip(1)[r + 1] == s[r + 2]);
        }
    }
}

// The header line grammar.  A line's content is what stands before its
// final CRLF: a non-empty token naming the field, a colon, then the value
// with its leading white space removed.  An empty content is the blank
// line that ends the header block.

/// What parsing the content of one header line yields: no header for the
/// blank line, a (name, value) pair for a well-formed line, or the message
/// of the error that the line provokes.
pub open spec fn spec_parse_header_line(content: Seq<u8>) -> Result<
    Option<(Seq<char>, Seq<char>)>,
    Seq<char>,
> {
    if content.len() == 0 {
        Ok(None)
    } else {
        let k = token_run(content);
        if k == 0 {
            Err("invalid header name line"@)
        } else if k >= content.len() || content[k] != 0x3a {
            Err("invalid header name line"@)
        } else if content.len() - (k + 1) < 1 {
            Err("invalid header name value"@)
        } else {
            let rest = content.skip(k + 1);
            let value = rest.skip(ows_run(rest));
            if forall|i: int| 0 <= i < value.len() ==> is_field_byte(#[trigger] value[i]) {
                Ok(Some((spec_normalize_name(latin1(content.take(k))), latin1(value))))
            } else {
                Err("invalid header name value"@)
            }
        }
    }
}

/// One HTTP header: a field name and one value.
#[derive(Debug)]
pub struct Header {
    /// The name of the header.
    pub name: String,
    /// The value of the header.
    pub value: String,
}

impl Header {
    /// Parses one header line, given with its final CRLF; the blank line
    /// parses to no header.
    #[verifier::loop_isolation(false)]
    pub fn parse_header_line(line: Vec<u8>) -> (r: Result<Option<Header>, HttpError>)
        requires
            line@.len() >= 2,
        ensures
            match r {
                Ok(h) => {
                    match (h, spec_parse_header_line(line@.take(line@.len() - 2))) {
                        (None, Ok(None)) => true,
                        (Some(h), Ok(Some((n, v)))) => h.name@ == n && h.value@ == v,
                        _ => false,
                    }
                },
                Err(e) => {
                    &&& spec_parse_header_line(line@.take(line@.len() - 2)) matches Err(m)
                    &&& e matches HttpError::InvalidRequest(msg) && msg@ == m
                },
            },
    {
        let ghost content = line@.take(line@.len() - 2);
        let end = line.len() - 2;
        if end == 0 {
            return Ok(None);
        }
        // Scan the field name, which is a token.
        let mut i: usize = 0;
        while i < end && byte_is_token(line[i])
            invariant
                end == line@.len() - 2,
                end <= line@.len(),
                i <= end,
                forall|j: int| 0 <= j < i ==> is_token_byte(#[trigger] line@[j]),
            decreases end - i,
        {
            i = i + 1;
        }
        proof {
            lemma_token_run(content);
            assert(forall|j: int| 0 <= j < i ==> is_token_byte(#[trigger] content[j]));
            if i < end {
                assert(content[i as int] == line@[i as int]);
            }
            assert(token_run(content) == i) by {
                let k = token_run(content);
                if k < i {
                    assert(is_token_byte(content[k]));
                }
                if k > i {
                    assert(is_token_byte(content[i as int]));
                }
            }
        }
        if i == 0 {
            return Err(HttpError::InvalidRequest(String::from_str("invalid header name line")));
        }
        // A colon must follow the name immediately.
        if i == end || line[i] != 0x3a {
            return Err(HttpError::InvalidRequest(String::from_str("invalid header name line")));
        }
        // The value part must hold at least one octet.
        if end - (i + 1) < 1 {
            return Err(HttpError::InvalidRequest(String::from_str("invalid header name value")));
        }
        // Skip the optional white space before the value.
        let ghost rest = content.skip(i + 1);
        let mut j: usize = i + 1;
        while j < end && byte_is_ows(line[j])
            invariant
                end == line@.len() - 2,
                end <= line@.len(),
                i + 1 <= j <= end,
                forall|m: int| i + 1 <= m < j ==> is_ows_byte(#[trigger] line@[m]),
            decreases end - j,
        {
            j = j + 1;
        }
        proof {
            lemma_ows_run(rest);
            assert(forall|m: int| 0 <= m < j - i - 1 ==> is_ows_byte(#[trigger] rest[m]));
            if j < end {
                assert(rest[j - i - 1] == line@[j as int]);
            }
            assert(ows_run(rest) == j - i - 1) by {
                let k = ows_run(rest);
                if k < j - i - 1 {
                    assert(is_ows_byte(rest[k]));
                }
                if k > j - i - 1 {
                    assert(is_ows_byte(rest[j - i - 1]));
                }
            }
            assert(rest.skip(ows_run(rest)) =~= content.skip(j as int));
        }
        // Every remaining octet must be valid field content.
        let value_start = j;
        let ghost value_seq = content.skip(value_start as int);
        while j < end
            invariant
                end == line@.len() - 2,
                end <= line@.len(),
                value_start <= j <= end,
                value_seq == content.skip(value_start as int),
                content == line@.take(line@.len() - 2),
                forall|m: int| value_start <= m < j ==> is_field_byte(#[trigger] line@[m]),
            decreases end - j,
        {
            if !byte_is_field(line[j]) {
                proof {
                    assert(value_seq[j - value_start] == line@[j as int]);
                    assert(content[i as int] == line@[i as int]);
                    assert(!is_field_byte(value_seq[j - value_start]));
                    assert(!(forall|m: int|
                        0 <= m < value_seq.len() ==> is_field_byte(#[trigger] value_seq[m])));
                }
                return Err(HttpError::InvalidRequest(
                    String::from_str("invalid header name value"),
                ));
            }
            j = j + 1;
        }
        proof {
            assert(forall|m: int| 0 <= m < value_seq.len() ==> is_field_byte(#[trigger] value_seq[m]));
        }
        // Build the header out of the octets.
        let name_raw = bytes_to_string(&line.as_slice()[0..i]);
        let name = normalize_header_name(name_raw);
        let value = bytes_to_string(&line.as_slice()[value_start..end]);
        proof {
            assert(line@.subrange(0, i as int) =~= content.take(i as int));
            assert(line@.subrange(value_start as int, end as int) =~= value_seq);
        }
        Ok(Some(Header { name, value }))
    }

    /// Reads one header line from the start of the input: the octets up to
    /// and including the first CRLF form the line.  Input in which no CRLF
    /// follows a header line is rejected.
    #[verifier::loop_isolation(false)]
    pub fn read_from(from: &[u8]) -> (r: Result<(Option<Header>, usize), HttpError>)
        ensures
            match r {
                Ok((h, used)) => {
                    &&& crlf_pos(from@) >= 0
                    &&& used == crlf_pos(from@) + 2
                    &&& match (h, spec_parse_header_line(from@.take(crlf_pos(from@)))) {
                        (None, Ok(None)) => true,
                        (Some(h), Ok(Some((n, v)))) => h.name@ == n && h.value@ == v,
                        _ => false,
                    }
                },
                Err(e) => {
                    ||| (crlf_pos(from@) == -1 && (e matches HttpError::InvalidRequest(msg)
                        && msg@ == "invalid header name line"@))
                    ||| (crlf_pos(from@) >= 0 && (spec_parse_header_line(
                        from@.take(crlf_pos(from@)),
                    ) matches Err(m) && (e matches HttpError::InvalidRequest(msg) && msg@ == m)))
                },
            },
    {
        let mut i: usize = 0;
        let n = from.len();
        while i + 1 < n && !(from[i] == CR && from[i + 1] == LF)
            invariant
                n == from@.len(),
                i + 1 <= n || i == 0,
                forall|j: int| 0 <= j < i ==> !(#[trigger] from@[j] == CR && from@[j + 1] == LF),
            decreases n - i,
        {
            i = i + 1;
        }
        proof {
            lemma_crlf_pos(from@);
        }
        if i + 1 >= n {
            proof {
                assert(crlf_pos(from@) == -1) by {
                    if crlf_pos(from@) >= 0 {
                        assert(from@[crlf_pos(from@)] == CR && from@[crlf_pos(from@) + 1] == LF);
                    }
                }
            }
            return Err(HttpError::InvalidRequest(String::from_str("invalid header name line")));
        }
        proof {
            assert(crlf_pos(from@) == i) by {
                if crlf_pos(from@) != i {
                    if 0 <= crlf_pos(from@) < i {
                        assert(from@[crlf_pos(from@)] == CR && from@[crlf_pos(from@) + 1] == LF);
                    } else {
                        assert(!(from@[i as int] == CR && from@[i as int + 1] == LF));
                    }
                }
            }
        }
        let mut line: Vec<u8> = Vec::new();
        let mut k: usize = 0;
        while k < i + 2
            invariant
                i + 2 <= n,
                n == from@.len(),
                k <= i + 2,
                line@ =~= from@.take(k as int),
            decreases i + 2 - k,
        {
            line.push(from[k]);
            k = k + 1;
            proof {
                assert(from@.take(k as int) =~= from@.take(k - 1).push(from@[k - 1]));
            }
        }
        proof {
            assert(line@.take(line@.len() - 2) =~= from@.take(i as int));
        }
        match Header::parse_header_line(line) {
            Ok(h) => Ok((h, i + 2)),
            Err(e) => Err(e),
        }
    }

    /// Serialized, a header is its name, a colon and a space, its value,
    /// and CRLF.
    pub open spec fn spec_serialize(name: Seq<char>, value: Seq<char>) -> Seq<u8> {
        latin1_bytes(name) + seq![0x3au8, 0x20u8] + latin1_bytes(value) + seq![CR, LF]
    }

    /// Appends the serialized header line.
    pub fn write(&self, to: &mut Vec<u8>) -> (r: HttpResult<()>)
        requires
            is_latin1_seq(self.name@),
            is_latin1_seq(self.value@),
        ensures
            r is Ok,
            final(to)@ == old(to)@ + Self::spec_serialize(self.name@, self.value@),
    {
        let mut name_bytes = string_to_bytes(self.name.as_str());
        to.append(&mut name_bytes);
        to.push(0x3a);
        to.push(0x20);
        let mut value_bytes = string_to_bytes(self.value.as_str());
        to.append(&mut value_bytes);
        to.push(CR);
        to.push(LF);
        proof {
            assert(to@ =~= old(to)@ + Self::spec_serialize(self.name@, self.value@));
        }
        Ok(())
    }
}

// A header collection is a list of entries, one per field name in order of
// first appearance, each entry carrying the values of that name in order.

/// Where a name first appears among the entries, or -1 where it does not.
pub open spec fn find_name(s: Seq<(Seq<char>, Seq<Seq<char>>)>, name: Seq<char>) -> int
    decreases s.len(),
{
    if s.len() == 0 {
        -1
    } else if s[0].0 == name {
        0
    } else {
        let r = find_name(s.skip(1), name);
        if r == -1 {
            -1
        } else {
            r + 1
        }
    }
}

/// What finding a name means: it points at the first entry of that name.
pub proof fn lemma_find_name(s: Seq<(Seq<char>, Seq<Seq<char>>)>, name: Seq<char>)
    ensures
        find_name(s, name) == -1 ==> forall|j: int| 0 <= j < s.len() ==> (#[trigger] s[j]).0
            != name,
        find_name(s, name) != -1 ==> 0 <= find_name(s, name) < s.len() && s[find_name(s, name)].0
            == name,
        find_name(s, name) != -1 ==> forall|j: int|
            0 <= j < find_name(s, name) ==> (#[trigger] s[j]).0 != name,
    decreases s.len(),
{
    if s.len() > 0 && s[0].0 != name {
        lemma_find_name(s.skip(1), name);
        let r = find_name(s.skip(1), name);
        if r == -1 {
            assert forall|j: int| 0 <= j < s.len() implies (#[trigger] s[j]).0 != name by {
                if j > 0 {
                    assert(s.skip(1)[j - 1] == s[j]);
                }
            }
        } else {
            assert(s.skip(1)[r] == s[r + 1]);
            assert forall|j: int| 0 <= j < find_name(s, name) implies (#[trigger] s[j]).0
                != name by {
                if j > 0 {
                    assert(s.skip(1)[j - 1] == s[j]);
                }
            }
        }
    }
}

/// The multimap the entries stand for.
pub open spec fn entries_map(s: Seq<(Seq<char>, Seq<Seq<char>>)>) -> Map<Seq<char>, Seq<Seq<char>>>
    decreases s.len(),
{
    if s.len() == 0 {
        Map::empty()
    } else {
        entries_map(s.drop_last()).insert(s.last().0, s.last().1)
    }
}

/// With names distinct, the multimap holds exactly the entries.
pub proof fn lemma_entries_map(s: Seq<(Seq<char>, Seq<Seq<char>>)>)
    requires
        forall|i: int, j: int|
            0 <= i < j < s.len() ==> (#[trigger] s[i]).0 != (#[trigger] s[j]).0,
    ensures
        forall|name: Seq<char>|
            #[trigger] entries_map(s).contains_key(name) <==> find_name(s, name) != -1,
        forall|name: Seq<char>|
            find_name(s, name) != -1 ==> #[trigger] entries_map(s)[name] == s[find_name(s, name)].1,
    decreases s.len(),
{
    if s.len() > 0 {
        lemma_entries_map(s.drop_last());
        let d = s.drop_last();
        assert forall|name: Seq<char>| #[trigger]
            entries_map(s).contains_key(name) <==> find_name(s, name) != -1 by {
            lemma_find_name(s, name);
            lemma_find_name(d, name);
            if entries_map(s).contains_key(name) {
                if name == s.last().0 {
                    if find_name(s, name) == -1 {
                        assert(s[s.len() - 1].0 != name);
                    }
                } else {
                    assert(entries_map(d).contains_key(name));
                    let k = find_name(d, name);
                    assert(k != -1);
                    assert(d[k] == s[k]);
                    if find_name(s, name) == -1 {
                        assert(s[k].0 != name);
                    }
                }
            }
            if find_name(s, name) != -1 {
                let i = find_name(s, name);
                assert(s[i].0 == name);
                if i < s.len() - 1 {
                    assert(d[i] == s[i]);
                    if find_name(d, name) == -1 {
                        assert(d[i].0 != name);
                    }
                    assert(entries_map(d).contains_key(name));
                }
            }
        }
        assert forall|name: Seq<char>| find_name(s, name) != -1 implies #[trigger] entries_map(
            s,
        )[name] == s[find_name(s, name)].1 by {
            lemma_find_name(s, name);
            let i = find_name(s, name);
            assert(s[i].0 == name);
            if name == s.last().0 {
                assert(i == s.len() - 1) by {
                    if i < s.len() - 1 {
                        assert(s[i].0 == s[s.len() - 1].0);
                    }
                }
            } else {
                assert(i < s.len() - 1);
                assert(d[i] == s[i]);
                lemma_find_name(d, name);
                let k = find_name(d, name);
                if k == -1 {
                    assert(d[i].0 != name);
                }
                assert(d[k] == s[k]);
                assert(s[k].0 == name);
                if k != i {
                    assert(s[k].0 == s[i].0);
                }
                assert(entries_map(d)[name] == d[k].1);
            }
        }
    }
}

/// Adding one value under a name: the value is appended to the entry of
/// that name, which is created at the end if the name is new.
pub open spec fn spec_add(
    s: Seq<(Seq<char>, Seq<Seq<char>>)>,
    name: Seq<char>,
    value: Seq<char>,
) -> Seq<(Seq<char>, Seq<Seq<char>>)> {
    let i = find_name(s, name);
    if i == -1 {
        s.push((name, seq![value]))
    } else {
        s.update(i, (s[i].0, s[i].1.push(value)))
    }
}

/// Holds a collection of HTTP headers.
#[derive(Debug)]
pub struct Headers {
    entries: Vec<(String, Vec<String>)>,
}

impl Headers {
    /// The entries as mathematical sequences.
    pub closed spec fn entries_seq(&self) -> Seq<(Seq<char>, Seq<Seq<char>>)> {
        self.entries@.map(|i: int, e: (String, Vec<String>)| (e.0@, e.1.deep_view()))
    }

    /// The multimap from names to value lists that this collection holds.
    pub open spec fn as_map(&self) -> Map<Seq<char>, Seq<Seq<char>>> {
        entries_map(self.entries_seq())
    }

    /// Well-formed: one entry per name, and no entry without a value.
    pub open spec fn wf(&self) -> bool {
        &&& forall|i: int, j: int|
            0 <= i < j < self.entries_seq().len() ==> (#[trigger] self.entries_seq()[i]).0 != (
            #[trigger] self.entries_seq()[j]).0
        &&& forall|i: int|
            0 <= i < self.entries_seq().len() ==> (#[trigger] self.entries_seq()[i]).1.len() >= 1
    }

    /// Every name and value can be written back as octets.
    pub open spec fn all_latin1(&self) -> bool {
        forall|i: int|
            0 <= i < self.entries_seq().len() ==> is_latin1_seq(
                (#[trigger] self.entries_seq()[i]).0,
            ) && forall|j: int|
                0 <= j < self.entries_seq()[i].1.len() ==> is_latin1_seq(
                    #[trigger] self.entries_seq()[i].1[j],
                )
    }

    /// Creates an empty collection.
    pub fn new() -> (r: Headers)
        ensures
            r.entries_seq() =~= Seq::<(Seq<char>, Seq<Seq<char>>)>::empty(),
            r.wf(),
    {
        Headers { entries: Vec::new() }
    }

    /// The entries, one per name in order of first appearance; each holds
    /// that name's values in the order they were added.
    pub fn iter(&self) -> (r: &Vec<(String, Vec<String>)>)
        ensures
            r@.len() == self.entries_seq().len(),
            forall|i: int|
                0 <= i < r@.len() ==> (#[trigger] r@[i]).0@ == self.entries_seq()[i].0 && r@[i]
                    .1.deep_view() == self.entries_seq()[i].1,
    {
        &self.entries
    }

    /// Adds a header to the collection.
    #[verifier::loop_isolation(false)]
    pub fn add(&mut self, header: Header)
        requires
            old(self).wf(),
        ensures
            final(self).entries_seq() == spec_add(
                old(self).entries_seq(),
                header.name@,
                header.value@,
            ),
            final(self).wf(),
    {
        let ghost s0 = self.entries_seq();
        let ghost name = header.name@;
        proof {
            lemma_find_name(s0, name);
        }
        let n = self.entries.len();
        let mut idx: usize = 0;
        while idx < n
            invariant
                n == self.entries@.len(),
                idx <= n,
                s0 == self.entries_seq(),
                name == header.name@,
                forall|j: int| 0 <= j < idx ==> (#[trigger] s0[j]).0 != name,
            decreases n - idx,
        {
            if crate::text::str_eq(self.entries[idx].0.as_str(), header.name.as_str()) {
                proof {
                    assert(s0[idx as int].0 == name);
                    assert(find_name(s0, name) == idx) by {
                        let k = find_name(s0, name);
                        if k == -1 {
                            assert(s0[idx as int].0 != name);
                        } else if k < idx {
                            assert(s0[k].0 == name);
                        } else if k > idx {
                            assert(s0[idx as int].0 != name);
                        }
                    }
                }
                let ghost raw0 = self.entries@;
                let mut entry = self.entries.remove(idx);
                entry.1.push(header.value);
                self.entries.insert(idx, entry);
                proof {
                    assert(self.entries@ =~= raw0.update(idx as int, self.entries@[idx as int]));
                    assert(self.entries_seq() =~~= spec_add(s0, name, header.value@));
                }
                return ;
            }
            idx = idx + 1;
        }
        proof {
            assert(find_name(s0, name) == -1) by {
                let k = find_name(s0, name);
                if k != -1 {
                    assert(s0[k].0 == name);
                }
            }
        }
        let mut values: Vec<String> = Vec::new();
        values.push(header.value);
        self.entries.push((header.name, values));
        proof {
            assert(values.deep_view() =~= seq![header.value@]);
            assert(self.entries_seq() =~= spec_add(s0, name, header.value@));
        }
    }

    /// The values recorded under a name, in order, or nothing when the
    /// name never appeared.
    #[verifier::loop_isolation(false)]
    pub fn get(&self, name: &str) -> (r: Option<&Vec<String>>)
        requires
            self.wf(),
        ensures
            r is Some <==> self.as_map().contains_key(name@),
            r matches Some(v) ==> v.deep_view() == self.as_map()[name@],
    {
        proof {
            lemma_find_name(self.entries_seq(), name@);
            lemma_entries_map(self.entries_seq());
        }
        let n = self.entries.len();
        let mut idx: usize = 0;
        while idx < n
            invariant
                n == self.entries@.len(),
                idx <= n,
                forall|j: int| 0 <= j < idx ==> (#[trigger] self.entries_seq()[j]).0 != name@,
            decreases n - idx,
        {
            if crate::text::str_eq(self.entries[idx].0.as_str(), name) {
                proof {
                    assert(self.entries_seq()[idx as int].0 == name@);
                    assert(find_name(self.entries_seq(), name@) == idx) by {
                        let k = find_name(self.entries_seq(), name@);
                        if k == -1 {
                            assert(self.entries_seq()[idx as int].0 != name@);
                        } else if k < idx {
                            assert(self.entries_seq()[k].0 == name@);
                        } else if k > idx {
                            assert(self.entries_seq()[idx as int].0 != name@);
                        }
                    }
                }
                return Some(&self.entries[idx].1);
            }
            idx = idx + 1;
        }
        proof {
            assert(find_name(self.entries_seq(), name@) == -1) by {
                let k = find_name(self.entries_seq(), name@);
                if k != -1 {
                    assert(self.entries_seq()[k].0 == name@);
                }
            }
        }
        None
    }

    /// Decides whether every name and value can be written back as
    /// octets, which [`Self::write`] requires.
    #[verifier::loop_isolation(false)]
    pub fn is_writable(&self) -> (r: bool)
        ensures
            r == self.all_latin1(),
    {
        let n = self.entries.len();
        let mut i: usize = 0;
        while i < n
            invariant
                i <= n,
                n == self.entries@.len(),
                forall|a: int|
                    0 <= a < i ==> is_latin1_seq((#[trigger] self.entries_seq()[a]).0) && forall|
                        b: int,
                    | 0 <= b < self.entries_seq()[a].1.len() ==> is_latin1_seq(
                        #[trigger] self.entries_seq()[a].1[b],
                    ),
            decreases n - i,
        {
            if !crate::text::str_is_latin1(self.entries[i].0.as_str()) {
                proof {
                    assert(!is_latin1_seq(self.entries_seq()[i as int].0));
                }
                return false;
            }
            let m = self.entries[i].1.len();
            let mut j: usize = 0;
            while j < m
                invariant
                    i < n,
                    n == self.entries@.len(),
                    m == self.entries@[i as int].1@.len(),
                    j <= m,
                    forall|b: int|
                        0 <= b < j ==> is_latin1_seq(#[trigger] self.entries_seq()[i as int].1[b]),
                decreases m - j,
            {
                if !crate::text::str_is_latin1(self.entries[i].1[j].as_str()) {
                    proof {
                        assert(self.entries_seq()[i as int].1[j as int] == self.entries@[
                            i as int].1@[j as int]@);
                        assert(!is_latin1_seq(self.entries_seq()[i as int].1[j as int]));
                    }
                    return false;
                }
                j = j + 1;
                proof {
                    assert(self.entries_seq()[i as int].1[j - 1] == self.entries@[i as int].1@[j
                        - 1]@);
                }
            }
            i = i + 1;
            proof {
                assert(is_latin1_seq(self.entries_seq()[i - 1].0));
            }
        }
        true
    }

    /// Appends every header line, in entry order, and the blank line that
    /// ends the block.
    #[verifier::loop_isolation(false)]
    pub fn write(&self, to: &mut Vec<u8>) -> (r: HttpResult<()>)
        requires
            self.all_latin1(),
        ensures
            r is Ok,
            final(to)@ == old(to)@ + spec_serialize_headers(self.entries_seq()),
    {
        let ghost s = self.entries_seq();
        let n = self.entries.len();
        let mut i: usize = 0;
        proof {
            assert(s.take(0) =~= Seq::<(Seq<char>, Seq<Seq<char>>)>::empty());
            assert(to@ =~= old(to)@ + spec_serialize_entries(s.take(0)));
        }
        while i < n
            invariant
                n == self.entries@.len(),
                i <= n,
                to@ == old(to)@ + spec_serialize_entries(s.take(i as int)),
            decreases n - i,
        {
            let ghost values = s[i as int].1;
            let m = self.entries[i].1.len();
            let mut j: usize = 0;
            proof {
                assert(values.take(0) =~= Seq::<Seq<char>>::empty());
            }
            while j < m
                invariant
                    i < n,
                    n == self.entries@.len(),
                    m == self.entries@[i as int].1@.len(),
                    j <= m,
                    to@ == old(to)@ + spec_serialize_entries(s.take(i as int))
                        + spec_serialize_values(s[i as int].0, values.take(j as int)),
                decreases m - j,
            {
                let name = self.entries[i].0.clone();
                let value = self.entries[i].1[j].clone();
                let header = Header { name, value };
                proof {
                    assert(header.value@ == values[j as int]);
                }
                let _ = header.write(to);
                j = j + 1;
                proof {
                    lemma_serialize_values_push(s[i as int].0, values.take(j - 1), values[j - 1]);
                    assert(values.take(j as int) =~= values.take(j - 1).push(values[j - 1]));
                    assert(to@ =~= old(to)@ + spec_serialize_entries(s.take(i as int))
                        + spec_serialize_values(s[i as int].0, values.take(j as int)));
                }
            }
            i = i + 1;
            proof {
                lemma_serialize_entries_push(s.take(i - 1), s[i - 1]);
                assert(s.take(i as int) =~= s.take(i - 1).push(s[i - 1]));
                assert(values.take(m as int) =~= values);
                assert(to@ =~= old(to)@ + spec_serialize_entries(s.take(i as int)));
            }
        }
        to.push(CR);
        to.push(LF);
        proof {
            assert(s.take(n as int) =~= s);
            assert(to@ =~= old(to)@ + spec_serialize_headers(s));
        }
        Ok(())
    }

    /// Reads a whole header block from the start of the input: header
    /// lines up to and including the blank line.
    #[verifier::loop_isolation(false)]
    #[verifier::rlimit(60)]
    pub fn read_from(from: &[u8]) -> (r: Result<(Headers, usize), HttpError>)
        ensures
            match r {
                Ok((h, used)) => {
                    &&& spec_parse_headers(from@) == Ok::<_, Seq<char>>((
                        h.entries_seq(),
                        used as int,
                    ))
                    &&& h.wf()
                    &&& 2 <= used <= from@.len()
                },
                Err(e) => {
                    &&& spec_parse_headers(from@) matches Err(m)
                    &&& e matches HttpError::InvalidRequest(msg) && msg@ == m
                },
            },
    {
        let mut headers = Headers::new();
        let mut consumed: usize = 0;
        proof {
            assert(from@.skip(0) =~= from@);
        }
        loop
            invariant
                consumed <= from@.len(),
                headers.wf(),
                match spec_parse_headers_loop(from@.skip(consumed as int), headers.entries_seq()) {
                    Ok((e, u)) => spec_parse_headers(from@) == Ok::<_, Seq<char>>((
                        e,
                        consumed + u,
                    )),
                    Err(m) => spec_parse_headers(from@) == Err::<(Seq<(Seq<char>, Seq<Seq<char>>)>, int), _>(
                        m,
                    ),
                },
            decreases from@.len() - consumed,
        {
            let rest = &from[consumed..from.len()];
            proof {
                assert(rest@ =~= from@.skip(consumed as int));
                lemma_crlf_pos(rest@);
            }
            match Header::read_from(rest) {
                Err(e) => {
                    return Err(e);
                },
                Ok((h, used)) => {
                    match h {
                        None => {
                            return Ok((headers, consumed + used));
                        },
                        Some(h) => {
                            headers.add(h);
                            consumed = consumed + used;
                            proof {
                                assert(from@.skip(consumed as int) =~= rest@.skip(
                                    crlf_pos(rest@) + 2,
                                ));
                            }
                        },
                    }
                },
            }
        }
    }
}

/// The serialized lines of one name's values, in order.
pub open spec fn spec_serialize_values(name: Seq<char>, values: Seq<Seq<char>>) -> Seq<u8>
    decreases values.len(),
{
    if values.len() == 0 {
        Seq::empty()
    } else {
        Header::spec_serialize(name, values[0]) + spec_serialize_values(name, values.skip(1))
    }
}

/// The serialized lines of a whole entry list, in order.
pub open spec fn spec_serialize_entries(entries: Seq<(Seq<char>, Seq<Seq<char>>)>) -> Seq<u8>
    decreases entries.len(),
{
    if entries.len() == 0 {
        Seq::empty()
    } else {
        spec_serialize_values(entries[0].0, entries[0].1) + spec_serialize_entries(entries.skip(1))
    }
}

/// A serialized header block: every header line, then the blank line.
pub open spec fn spec_serialize_headers(entries: Seq<(Seq<char>, Seq<Seq<char>>)>) -> Seq<u8> {
    spec_serialize_entries(entries) + seq![CR, LF]
}

/// Serializing one more value appends its line.
pub proof fn lemma_serialize_values_push(name: Seq<char>, values: Seq<Seq<char>>, v: Seq<char>)
    ensures
        spec_serialize_values(name, values.push(v)) == spec_serialize_values(name, values)
            + Header::spec_serialize(name, v),
    decreases values.len(),
{
    if values.len() == 0 {
        assert(values.push(v).skip(1) =~= Seq::<Seq<char>>::empty());
        assert(values.push(v)[0] == v);
        assert(values.push(v).len() == 1);
        assert(spec_serialize_values(name, values.push(v)) == Header::spec_serialize(name, v)
            + spec_serialize_values(name, values.push(v).skip(1)));
        assert(spec_serialize_values(name, values.push(v).skip(1)) == Seq::<u8>::empty());
        assert(spec_serialize_values(name, values) == Seq::<u8>::empty());
        assert(Header::spec_serialize(name, v) + Seq::<u8>::empty() =~= Seq::<u8>::empty()
            + Header::spec_serialize(name, v));
    } else {
        lemma_serialize_values_push(name, values.skip(1), v);
        assert(values.push(v).skip(1) =~= values.skip(1).push(v));
        assert(values.push(v)[0] == values[0]);
        assert(spec_serialize_values(name, values.push(v)) == Header::spec_serialize(
            name,
            values[0],
        ) + (spec_serialize_values(name, values.skip(1)) + Header::spec_serialize(name, v)));
        assert(Header::spec_serialize(name, values[0]) + (spec_serialize_values(
            name,
            values.skip(1),
        ) + Header::spec_serialize(name, v)) =~= (Header::spec_serialize(name, values[0])
            + spec_serialize_values(name, values.skip(1))) + Header::spec_serialize(name, v));
    }
}

/// Serializing one more entry appends its lines.
pub proof fn lemma_serialize_entries_push(
    entries: Seq<(Seq<char>, Seq<Seq<char>>)>,
    e: (Seq<char>, Seq<Seq<char>>),
)
    ensures
        spec_serialize_entries(entries.push(e)) == spec_serialize_entries(entries)
            + spec_serialize_values(e.0, e.1),
    decreases entries.len(),
{
    if entries.len() == 0 {
        assert(entries.push(e).skip(1) =~= Seq::<(Seq<char>, Seq<Seq<char>>)>::empty());
        assert(entries.push(e)[0] == e);
        assert(entries.push(e).len() == 1);
        assert(spec_serialize_entries(entries.push(e)) == spec_serialize_values(e.0, e.1)
            + spec_serialize_entries(entries.push(e).skip(1)));
        assert(spec_serialize_entries(entries.push(e).skip(1)) == Seq::<u8>::empty());
        assert(spec_serialize_entries(entries) == Seq::<u8>::empty());
        assert(spec_serialize_values(e.0, e.1) + Seq::<u8>::empty() =~= Seq::<u8>::empty()
            + spec_serialize_values(e.0, e.1));
    } else {
        lemma_serialize_entries_push(entries.skip(1), e);
        assert(entries.push(e).skip(1) =~= entries.skip(1).push(e));
        assert(entries.push(e)[0] == entries[0]);
        assert(spec_serialize_entries(entries.push(e)) == spec_serialize_values(
            entries[0].0,
            entries[0].1,
        ) + (spec_serialize_entries(entries.skip(1)) + spec_serialize_values(e.0, e.1)));
        assert(spec_serialize_values(entries[0].0, entries[0].1) + (spec_serialize_entries(
            entries.skip(1),
        ) + spec_serialize_values(e.0, e.1)) =~= (spec_serialize_values(entries[0].0, entries[0].1)
            + spec_serialize_entries(entries.skip(1))) + spec_serialize_values(e.0, e.1));
    }
}

/// What parsing a header block from the start of the input yields, given
/// the entries gathered so far: the entries and the octets consumed, or
/// the message of the error that the block provokes.
pub open spec fn spec_parse_headers_loop(
    s: Seq<u8>,
    acc: Seq<(Seq<char>, Seq<Seq<char>>)>,
) -> Result<(Seq<(Seq<char>, Seq<Seq<char>>)>, int), Seq<char>>
    decreases s.len(),
{
    let p = crlf_pos(s);
    if p < 0 || p + 2 > s.len() {
        Err("invalid header name line"@)
    } else {
        match spec_parse_header_line(s.take(p)) {
            Err(m) => Err(m),
            Ok(None) => Ok((acc, p + 2)),
            Ok(Some((n, v))) => match spec_parse_headers_loop(s.skip(p + 2), spec_add(acc, n, v)) {
                Err(m) => Err(m),
                Ok((e, used)) => Ok((e, p + 2 + used)),
            },
        }
    }
}

/// What parsing a header block from the start of the input yields.
pub open spec fn spec_parse_headers(s: Seq<u8>) -> Result<
    (Seq<(Seq<char>, Seq<Seq<char>>)>, int),
    Seq<char>,
> {
    spec_parse_headers_loop(s, Seq::empty())
}


// The round trip: a well-formed header collection, serialized and parsed
// back, returns unchanged.

/// A field name that survives the round trip: non-empty, made of token
/// octets, and already in normalized form.
pub open spec fn name_ok(n: Seq<char>) -> bool {
    &&& n.len() >= 1
    &&& forall|i: int|
        0 <= i < n.len() ==> ((#[trigger] n[i]) as u32) < 0x100 && is_token_byte(n[i] as u8)
    &&& spec_normalize_name(n) == n
}

/// A field value that survives the round trip: made of field octets, with
/// no leading white space.
pub open spec fn value_ok(v: Seq<char>) -> bool {
    &&& forall|i: int|
        0 <= i < v.len() ==> ((#[trigger] v[i]) as u32) < 0x100 && is_field_byte(v[i] as u8)
    &&& v.len() >= 1 ==> !is_ows_byte(v[0] as u8)
}

/// Entries that survive the round trip: distinct well-formed names, each
/// with at least one well-formed value.
pub open spec fn entries_ok(entries: Seq<(Seq<char>, Seq<Seq<char>>)>) -> bool {
    &&& forall|i: int, j: int|
        0 <= i < j < entries.len() ==> (#[trigger] entries[i]).0 != (#[trigger] entries[j]).0
    &&& forall|i: int|
        0 <= i < entries.len() ==> name_ok((#[trigger] entries[i]).0) && entries[i].1.len() >= 1
            && forall|j: int|
            0 <= j < entries[i].1.len() ==> value_ok(#[trigger] entries[i].1[j])
}

/// Where a CRLF is known to stand, with no carriage return before it, the
/// first CRLF is there.
pub proof fn lemma_crlf_at(s: Seq<u8>, p: int)
    requires
        0 <= p,
        p + 2 <= s.len(),
        s[p] == CR,
        s[p + 1] == LF,
        forall|j: int| 0 <= j < p ==> (#[trigger] s[j]) != CR,
    ensures
        crlf_pos(s) == p,
{
    lemma_crlf_pos(s);
    if crlf_pos(s) == -1 {
        assert(!(s[p] == CR && s[p + 1] == LF));
    } else if crlf_pos(s) < p {
        assert(s[crlf_pos(s)] == CR);
    } else if crlf_pos(s) > p {
        assert(!(s[p] == CR && s[p + 1] == LF));
    }
}

/// No octet of a serialized header line before its final CRLF is a
/// carriage return.
pub proof fn lemma_line_no_cr(n: Seq<char>, v: Seq<char>)
    requires
        name_ok(n),
        value_ok(v),
    ensures
        forall|j: int|
            0 <= j < Header::spec_serialize(n, v).len() - 2 ==> (#[trigger] Header::spec_serialize(
                n,
                v,
            )[j]) != CR,
{
    let line = Header::spec_serialize(n, v);
    assert forall|j: int| 0 <= j < line.len() - 2 implies (#[trigger] line[j]) != CR by {
        if j < n.len() {
            assert(line[j] == latin1_bytes(n)[j]);
            assert(is_token_byte(n[j] as u8));
        } else if j < n.len() + 2 {
        } else {
            assert(line[j] == latin1_bytes(v)[j - n.len() - 2]);
            assert(is_field_byte(v[j - n.len() - 2] as u8));
        }
    }
}

/// A serialized header line parses back to its name and value.
pub proof fn lemma_line_round_trip(n: Seq<char>, v: Seq<char>)
    requires
        name_ok(n),
        value_ok(v),
    ensures
        spec_parse_header_line(Header::spec_serialize(n, v).drop_last().drop_last())
            == Ok::<_, Seq<char>>(Some((n, v))),
{
    let line = Header::spec_serialize(n, v);
    let content = line.drop_last().drop_last();
    assert(content =~= latin1_bytes(n) + seq![0x3au8, 0x20u8] + latin1_bytes(v));
    let k = token_run(content);
    lemma_token_run(content);
    assert forall|j: int| 0 <= j < n.len() implies is_token_byte(#[trigger] content[j]) by {
        assert(content[j] == latin1_bytes(n)[j]);
    }
    assert(content[n.len() as int] == 0x3a);
    assert(k == n.len()) by {
        if k < n.len() {
            assert(is_token_byte(content[k]));
        }
        if k > n.len() {
            assert(is_token_byte(content[n.len() as int]));
        }
    }
    let rest = content.skip(k + 1);
    assert(rest =~= seq![0x20u8] + latin1_bytes(v));
    lemma_ows_run(rest);
    assert(rest[0] == 0x20);
    assert(ows_run(rest) == 1) by {
        if ows_run(rest) == 0 {
            assert(is_ows_byte(rest[0]));
        }
        if ows_run(rest) > 1 {
            assert(is_ows_byte(rest[1]));
            assert(rest[1] == latin1_bytes(v)[0]);
        }
    }
    let value = rest.skip(1);
    assert(value =~= latin1_bytes(v));
    assert forall|i: int| 0 <= i < value.len() implies is_field_byte(#[trigger] value[i]) by {
        assert(value[i] == v[i] as u8);
    }
    assert(content.take(k) =~= latin1_bytes(n));
    crate::text::lemma_latin1_roundtrip_chars(n);
    crate::text::lemma_latin1_roundtrip_chars(v);
    assert(content.len() - (k + 1) >= 1);
    assert(spec_parse_header_line(content) == Ok::<_, Seq<char>>(Some((spec_normalize_name(n), v))));
}

/// Folding one value after another into the entries, as parsing does.
pub open spec fn add_values(
    acc: Seq<(Seq<char>, Seq<Seq<char>>)>,
    n: Seq<char>,
    vs: Seq<Seq<char>>,
) -> Seq<(Seq<char>, Seq<Seq<char>>)>
    decreases vs.len(),
{
    if vs.len() == 0 {
        acc
    } else {
        add_values(spec_add(acc, n, vs[0]), n, vs.skip(1))
    }
}

/// Folding one entry after another into the entries, as parsing does.
pub open spec fn add_entries(
    acc: Seq<(Seq<char>, Seq<Seq<char>>)>,
    entries: Seq<(Seq<char>, Seq<Seq<char>>)>,
) -> Seq<(Seq<char>, Seq<Seq<char>>)>
    decreases entries.len(),
{
    if entries.len() == 0 {
        acc
    } else {
        add_entries(add_values(acc, entries[0].0, entries[0].1), entries.skip(1))
    }
}

/// A name standing at an index before which it does not appear is the one
/// that is found.
pub proof fn lemma_find_name_unique(s: Seq<(Seq<char>, Seq<Seq<char>>)>, name: Seq<char>, k: int)
    requires
        0 <= k < s.len(),
        s[k].0 == name,
        forall|j: int| 0 <= j < k ==> (#[trigger] s[j]).0 != name,
    ensures
        find_name(s, name) == k,
{
    lemma_find_name(s, name);
    let r = find_name(s, name);
    if r == -1 {
        assert(s[k].0 != name);
    } else if r < k {
        assert(s[r].0 == name);
    } else if r > k {
        assert(s[k].0 != name);
    }
}

/// Folding values under a name that is present appends them to its entry.
pub proof fn lemma_add_values_found(
    acc: Seq<(Seq<char>, Seq<Seq<char>>)>,
    n: Seq<char>,
    vs: Seq<Seq<char>>,
    i: int,
)
    requires
        0 <= i < acc.len(),
        find_name(acc, n) == i,
    ensures
        add_values(acc, n, vs) == acc.update(i, (acc[i].0, acc[i].1 + vs)),
    decreases vs.len(),
{
    lemma_find_name(acc, n);
    if vs.len() == 0 {
        assert(acc[i].1 + vs =~= acc[i].1);
        assert(acc.update(i, (acc[i].0, acc[i].1 + vs)) =~= acc);
    } else {
        let acc1 = spec_add(acc, n, vs[0]);
        assert(acc1 == acc.update(i, (acc[i].0, acc[i].1.push(vs[0]))));
        lemma_find_name_unique(acc1, n, i);
        lemma_add_values_found(acc1, n, vs.skip(1), i);
        assert(acc1[i].1 + vs.skip(1) =~= acc[i].1 + vs);
        assert(acc1.update(i, (acc1[i].0, acc1[i].1 + vs.skip(1))) =~= acc.update(
            i,
            (acc[i].0, acc[i].1 + vs),
        ));
    }
}

/// Folding values under a fresh name appends one new entry at the end.
pub proof fn lemma_add_values_fresh(
    acc: Seq<(Seq<char>, Seq<Seq<char>>)>,
    n: Seq<char>,
    vs: Seq<Seq<char>>,
)
    requires
        find_name(acc, n) == -1,
        vs.len() >= 1,
    ensures
        add_values(acc, n, vs) == acc.push((n, vs)),
{
    lemma_find_name(acc, n);
    let acc1 = spec_add(acc, n, vs[0]);
    assert(acc1 == acc.push((n, seq![vs[0]])));
    lemma_find_name_unique(acc1, n, acc.len() as int);
    lemma_add_values_found(acc1, n, vs.skip(1), acc.len() as int);
    assert(acc1[acc.len() as int].1 + vs.skip(1) =~= vs);
    assert(acc1.update(acc.len() as int, (n, vs)) =~= acc.push((n, vs)));
}

/// Folding entries whose names are fresh and distinct appends them all.
pub proof fn lemma_add_entries(
    acc: Seq<(Seq<char>, Seq<Seq<char>>)>,
    entries: Seq<(Seq<char>, Seq<Seq<char>>)>,
)
    requires
        forall|i: int, j: int|
            0 <= i < j < entries.len() ==> (#[trigger] entries[i]).0 != (#[trigger] entries[j]).0,
        forall|i: int| 0 <= i < entries.len() ==> (#[trigger] entries[i]).1.len() >= 1,
        forall|i: int, j: int|
            0 <= i < acc.len() && 0 <= j < entries.len() ==> (#[trigger] acc[i]).0 != (
            #[trigger] entries[j]).0,
    ensures
        add_entries(acc, entries) == acc + entries,
    decreases entries.len(),
{
    if entries.len() == 0 {
        assert(acc + entries =~= acc);
    } else {
        let n = entries[0].0;
        let vs = entries[0].1;
        assert(find_name(acc, n) == -1) by {
            lemma_find_name(acc, n);
            if find_name(acc, n) != -1 {
                assert(acc[find_name(acc, n)].0 == n);
                assert(acc[find_name(acc, n)].0 != entries[0].0);
            }
        }
        lemma_add_values_fresh(acc, n, vs);
        let acc1 = acc.push((n, vs));
        assert forall|i: int, j: int|
            0 <= i < acc1.len() && 0 <= j < entries.skip(1).len() implies (#[trigger] acc1[i]).0
            != (#[trigger] entries.skip(1)[j]).0 by {
            assert(entries.skip(1)[j] == entries[j + 1]);
            if i < acc.len() {
                assert(acc1[i] == acc[i]);
            } else {
                assert(acc1[i] == entries[0]);
            }
        }
        lemma_add_entries(acc1, entries.skip(1));
        assert(acc1 + entries.skip(1) =~= acc + entries);
    }
}

/// Parsing the serialized lines of one name's values, followed by further
/// octets, folds the values in and goes on with the rest.
pub proof fn lemma_parse_values(
    acc: Seq<(Seq<char>, Seq<Seq<char>>)>,
    n: Seq<char>,
    vs: Seq<Seq<char>>,
    rest: Seq<u8>,
)
    requires
        name_ok(n),
        forall|j: int| 0 <= j < vs.len() ==> value_ok(#[trigger] vs[j]),
    ensures
        spec_parse_headers_loop(spec_serialize_values(n, vs) + rest, acc) == match spec_parse_headers_loop(
            rest,
            add_values(acc, n, vs),
        ) {
            Ok((e, u)) => Ok((e, spec_serialize_values(n, vs).len() + u)),
            Err(m) => Err(m),
        },
    decreases vs.len(),
{
    if vs.len() == 0 {
        assert(spec_serialize_values(n, vs) + rest =~= rest);
        match spec_parse_headers_loop(rest, acc) {
            Ok((e, u)) => {},
            Err(m) => {},
        }
    } else {
        let line = Header::spec_serialize(n, vs[0]);
        let tail = spec_serialize_values(n, vs.skip(1)) + rest;
        let whole = spec_serialize_values(n, vs) + rest;
        assert(whole =~= line + tail);
        let p = line.len() - 2;
        lemma_line_no_cr(n, vs[0]);
        assert forall|j: int| 0 <= j < p implies (#[trigger] whole[j]) != CR by {
            assert(whole[j] == line[j]);
        }
        assert(whole[p] == line[p as int]);
        assert(whole[p + 1] == line[p + 1]);
        assert(line[p as int] == CR && line[p + 1] == LF);
        lemma_crlf_at(whole, p);
        assert(whole.take(p) =~= line.drop_last().drop_last());
        lemma_line_round_trip(n, vs[0]);
        assert(whole.skip(p + 2) =~= tail);
        lemma_parse_values(spec_add(acc, n, vs[0]), n, vs.skip(1), rest);
        match spec_parse_headers_loop(rest, add_values(acc, n, vs)) {
            Ok((e, u)) => {},
            Err(m) => {},
        }
    }
}

/// Parsing the serialized lines of a whole entry list, followed by further
/// octets, folds the entries in and goes on with the rest.
pub proof fn lemma_parse_entries(
    acc: Seq<(Seq<char>, Seq<Seq<char>>)>,
    entries: Seq<(Seq<char>, Seq<Seq<char>>)>,
    rest: Seq<u8>,
)
    requires
        forall|i: int|
            0 <= i < entries.len() ==> name_ok((#[trigger] entries[i]).0) && forall|j: int|
                0 <= j < entries[i].1.len() ==> value_ok(#[trigger] entries[i].1[j]),
    ensures
        spec_parse_headers_loop(spec_serialize_entries(entries) + rest, acc) == match spec_parse_headers_loop(
            rest,
            add_entries(acc, entries),
        ) {
            Ok((e, u)) => Ok((e, spec_serialize_entries(entries).len() + u)),
            Err(m) => Err(m),
        },
    decreases entries.len(),
{
    if entries.len() == 0 {
        assert(spec_serialize_entries(entries) + rest =~= rest);
        match spec_parse_headers_loop(rest, acc) {
            Ok((e, u)) => {},
            Err(m) => {},
        }
    } else {
        let tail = spec_serialize_entries(entries.skip(1)) + rest;
        assert(spec_serialize_entries(entries) + rest =~= spec_serialize_values(
            entries[0].0,
            entries[0].1,
        ) + tail);
        lemma_parse_values(acc, entries[0].0, entries[0].1, tail);
        assert(forall|i: int|
            0 <= i < entries.skip(1).len() ==> (#[trigger] entries.skip(1)[i]) == entries[i + 1]);
        lemma_parse_entries(add_values(acc, entries[0].0, entries[0].1), entries.skip(1), rest);
        match spec_parse_headers_loop(rest, add_entries(acc, entries)) {
            Ok((e, u)) => {},
            Err(m) => {},
        }
    }
}

/// A header block followed by anything parses back to its entries, the
/// whole block and nothing more being consumed.
pub proof fn lemma_headers_round_trip_rest(entries: Seq<(Seq<char>, Seq<Seq<char>>)>, rest: Seq<u8>)
    requires
        entries_ok(entries),
    ensures
        spec_parse_headers(spec_serialize_headers(entries) + rest) == Ok::<_, Seq<char>>((
            entries,
            spec_serialize_headers(entries).len() as int,
        )),
{
    let blank = seq![CR, LF] + rest;
    assert(spec_parse_headers_loop(blank, add_entries(Seq::empty(), entries)) == Ok::<
        _,
        Seq<char>,
    >((add_entries(Seq::empty(), entries), 2int))) by {
        lemma_crlf_at(blank, 0);
        assert(blank.take(0) =~= Seq::<u8>::empty());
    }
    lemma_parse_entries(Seq::empty(), entries, blank);
    lemma_add_entries(Seq::empty(), entries);
    assert(Seq::empty() + entries =~= entries);
    assert(spec_serialize_headers(entries) + rest =~= spec_serialize_entries(entries) + blank);
    assert(spec_serialize_headers(entries).len() == spec_serialize_entries(entries).len() + 2);
}

/// The law of the header block round trip: a well-formed header collection,
/// written out and parsed back, yields the same entries, the whole output
/// being consumed.
pub proof fn lemma_headers_round_trip(entries: Seq<(Seq<char>, Seq<Seq<char>>)>)
    requires
        entries_ok(entries),
    ensures
        spec_parse_headers(spec_serialize_headers(entries)) == Ok::<_, Seq<char>>((
            entries,
            spec_serialize_headers(entries).len() as int,
        )),
{
    lemma_headers_round_trip_rest(entries, Seq::empty());
    assert(spec_serialize_headers(entries) + Seq::<u8>::empty() =~= spec_serialize_headers(
        entries,
    ));
}


} // verus!
