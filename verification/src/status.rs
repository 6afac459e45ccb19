use vstd::prelude::*;

verus! {

/// One variant for each status code that RFC 7231 registers, and one that
/// carries any other numeric code through unchanged.
#[allow(missing_docs)]
#[derive(Debug, PartialEq, Eq, Structural, Clone, Copy)]
pub enum StatusCode {
    Continue,
    SwitchingProtocols,
    OK,
    Created,
    Accepted,
    NonAuthoritativeInformation,
    NoContent,
    ResetContent,
    PartialContent,
    MultipleChoices,
    MovedPermanently,
    Found,
    SeeOther,
    NotModified,
    UseProxy,
    TemporaryRedirect,
    BadRequest,
    Unauthorized,
    PaymentRequired,
    Forbidden,
    NotFound,
    MethodNotAllowed,
    NotAcceptable,
    ProxyAuthenticationRequired,
    RequestTimeOut,
    Conflict,
    Gone,
    LengthRequired,
    PreconditionFailed,
    RequestEntityTooLarge,
    RequestURITooLarge,
    UnsupportedMediaType,
    RequestedRangeNotSatisfiable,
    ExpectationFailed,
    InternalServerError,
    NotImplemented,
    BadGateway,
    ServiceUnavailable,
    GatewayTimeOut,
    HTTPVersionNotSupported,
    ExtensionCode(usize),
}

/// The numeric value of a status code.
pub open spec fn spec_status_code(s: StatusCode) -> int {
    match s {
        StatusCode::Continue => 100,
        StatusCode::SwitchingProtocols => 101,
        StatusCode::OK => 200,
        StatusCode::Created => 201,
        StatusCode::Accepted => 202,
        StatusCode::NonAuthoritativeInformation => 203,
        StatusCode::NoContent => 204,
        StatusCode::ResetContent => 205,
        StatusCode::PartialContent => 206,
        StatusCode::MultipleChoices => 300,
        StatusCode::MovedPermanently => 301,
        StatusCode::Found => 302,
        StatusCode::SeeOther => 303,
        StatusCode::NotModified => 304,
        StatusCode::UseProxy => 305,
        StatusCode::TemporaryRedirect => 307,
        StatusCode::BadRequest => 400,
        StatusCode::Unauthorized => 401,
        StatusCode::PaymentRequired => 402,
        StatusCode::Forbidden => 403,
        StatusCode::NotFound => 404,
        StatusCode::MethodNotAllowed => 405,
        StatusCode::NotAcceptable => 406,
        StatusCode::ProxyAuthenticationRequired => 407,
        StatusCode::RequestTimeOut => 408,
        StatusCode::Conflict => 409,
        StatusCode::Gone => 410,
        StatusCode::LengthRequired => 411,
        StatusCode::PreconditionFailed => 412,
        StatusCode::RequestEntityTooLarge => 413,
        StatusCode::RequestURITooLarge => 414,
        StatusCode::UnsupportedMediaType => 415,
        StatusCode::RequestedRangeNotSatisfiable => 416,
        StatusCode::ExpectationFailed => 417,
        StatusCode::InternalServerError => 500,
        StatusCode::NotImplemented => 501,
        StatusCode::BadGateway => 502,
        StatusCode::ServiceUnavailable => 503,
        StatusCode::GatewayTimeOut => 504,
        StatusCode::HTTPVersionNotSupported => 505,
        StatusCode::ExtensionCode(code) => code as int,
    }
}

/// The registered reason phrase of a status code.
pub open spec fn spec_reason(s: StatusCode) -> Seq<char> {
    match s {
        StatusCode::Continue => "Continue"@,
        StatusCode::SwitchingProtocols => "Switching Protocols"@,
        StatusCode::OK => "OK"@,
        StatusCode::Created => "Created"@,
        StatusCode::Accepted => "Accepted"@,
        StatusCode::NonAuthoritativeInformation => "Non-Authoritative Information"@,
        StatusCode::NoContent => "No Content"@,
        StatusCode::ResetContent => "Reset Content"@,
        StatusCode::PartialContent => "Partial Content"@,
        StatusCode::MultipleChoices => "Multiple Choices"@,
        StatusCode::MovedPermanently => "Moved Permanently"@,
        StatusCode::Found => "Found"@,
        StatusCode::SeeOther => "See Other"@,
        StatusCode::NotModified => "Not Modified"@,
        StatusCode::UseProxy => "Use Proxy"@,
        StatusCode::TemporaryRedirect => "Temporary Redirect"@,
        StatusCode::BadRequest => "Bad Request"@,
        StatusCode::Unauthorized => "Unauthorized"@,
        StatusCode::PaymentRequired => "Payment Required"@,
        StatusCode::Forbidden => "Forbidden"@,
        StatusCode::NotFound => "Not Found"@,
        StatusCode::MethodNotAllowed => "Method Not Allowed"@,
        StatusCode::NotAcceptable => "Not Acceptable"@,
        StatusCode::ProxyAuthenticationRequired => "Proxy Authentication Required"@,
        StatusCode::RequestTimeOut => "Request Time-out"@,
        StatusCode::Conflict => "Conflict"@,
        StatusCode::Gone => "Gone"@,
        StatusCode::LengthRequired => "Length Required"@,
        StatusCode::PreconditionFailed => "Precondition Failed"@,
        StatusCode::RequestEntityTooLarge => "Request Entity Too Large"@,
        StatusCode::RequestURITooLarge => "Request-URI Too Large"@,
        StatusCode::UnsupportedMediaType => "Unsupported Media Type"@,
        StatusCode::RequestedRangeNotSatisfiable => "Requested range not satisfiable"@,
        StatusCode::ExpectationFailed => "Expectation Failed"@,
        StatusCode::InternalServerError => "Internal Server Error"@,
        StatusCode::NotImplemented => "Not Implemented"@,
        StatusCode::BadGateway => "Bad Gateway"@,
        StatusCode::ServiceUnavailable => "Service Unavailable"@,
        StatusCode::GatewayTimeOut => "Gateway Time-out"@,
        StatusCode::HTTPVersionNotSupported => "HTTP Version not supported"@,
        StatusCode::ExtensionCode(_) => "Extesion code"@,
    }
}

/// The status code that a numeric value names: the registered variant where
/// one exists, otherwise the extension variant holding the value itself.
pub open spec fn spec_status_of(code: usize) -> StatusCode {
    if code == 100 {
        StatusCode::Continue
    } else if code == 101 {
        StatusCode::SwitchingProtocols
    } else if code == 200 {
        StatusCode::OK
    } else if code == 201 {
        StatusCode::Created
    } else if code == 202 {
        StatusCode::Accepted
    } else if code == 203 {
        StatusCode::NonAuthoritativeInformation
    } else if code == 204 {
        StatusCode::NoContent
    } else if code == 205 {
        StatusCode::ResetContent
    } else if code == 206 {
        StatusCode::PartialContent
    } else if code == 300 {
        StatusCode::MultipleChoices
    } else if code == 301 {
        StatusCode::MovedPermanently
    } else if code == 302 {
        StatusCode::Found
    } else if code == 303 {
        StatusCode::SeeOther
    } else if code == 304 {
        StatusCode::NotModified
    } else if code == 305 {
        StatusCode::UseProxy
    } else if code == 307 {
        StatusCode::TemporaryRedirect
    } else if code == 400 {
        StatusCode::BadRequest
    } else if code == 401 {
        StatusCode::Unauthorized
    } else if code == 402 {
        StatusCode::PaymentRequired
    } else if code == 403 {
        StatusCode::Forbidden
    } else if code == 404 {
        StatusCode::NotFound
    } else if code == 405 {
        StatusCode::MethodNotAllowed
    } else if code == 406 {
        StatusCode::NotAcceptable
    } else if code == 407 {
        StatusCode::ProxyAuthenticationRequired
    } else if code == 408 {
        StatusCode::RequestTimeOut
    } else if code == 409 {
        StatusCode::Conflict
    } else if code == 410 {
        StatusCode::Gone
    } else if code == 411 {
        StatusCode::LengthRequired
    } else if code == 412 {
        StatusCode::PreconditionFailed
    } else if code == 413 {
        StatusCode::RequestEntityTooLarge
    } else if code == 414 {
        StatusCode::RequestURITooLarge
    } else if code == 415 {
        StatusCode::UnsupportedMediaType
    } else if code == 416 {
        StatusCode::RequestedRangeNotSatisfiable
    } else if code == 417 {
        StatusCode::ExpectationFailed
    } else if code == 500 {
        StatusCode::InternalServerError
    } else if code == 501 {
        StatusCode::NotImplemented
    } else if code == 502 {
        StatusCode::BadGateway
    } else if code == 503 {
        StatusCode::ServiceUnavailable
    } else if code == 504 {
        StatusCode::GatewayTimeOut
    } else if code == 505 {
        StatusCode::HTTPVersionNotSupported
    } else {
        StatusCode::ExtensionCode(code)
    }
}

impl StatusCode {
    /// The reason phrase associated with this status code.
    pub fn reason(&self) -> (r: &'static str)
        ensures
            r@ == spec_reason(*self),
    {
        match self {
            StatusCode::Continue => "Continue",
            StatusCode::SwitchingProtocols => "Switching Protocols",
            StatusCode::OK => "OK",
            StatusCode::Created => "Created",
            StatusCode::Accepted => "Accepted",
            StatusCode::NonAuthoritativeInformation => "Non-Authoritative Information",
            StatusCode::NoContent => "No Content",
            StatusCode::ResetContent => "Reset Content",
            StatusCode::PartialContent => "Partial Content",
            StatusCode::MultipleChoices => "Multiple Choices",
            StatusCode::MovedPermanently => "Moved Permanently",
            StatusCode::Found => "Found",
            StatusCode::SeeOther => "See Other",
            StatusCode::NotModified => "Not Modified",
            StatusCode::UseProxy => "Use Proxy",
            StatusCode::TemporaryRedirect => "Temporary Redirect",
            StatusCode::BadRequest => "Bad Request",
            StatusCode::Unauthorized => "Unauthorized",
            StatusCode::PaymentRequired => "Payment Required",
            StatusCode::Forbidden => "Forbidden",
            StatusCode::NotFound => "Not Found",
            StatusCode::MethodNotAllowed => "Method Not Allowed",
            StatusCode::NotAcceptable => "Not Acceptable",
            StatusCode::ProxyAuthenticationRequired => "Proxy Authentication Required",
            StatusCode::RequestTimeOut => "Request Time-out",
            StatusCode::Conflict => "Conflict",
            StatusCode::Gone => "Gone",
            StatusCode::LengthRequired => "Length Required",
            StatusCode::PreconditionFailed => "Precondition Failed",
            StatusCode::RequestEntityTooLarge => "Request Entity Too Large",
            StatusCode::RequestURITooLarge => "Request-URI Too Large",
            StatusCode::UnsupportedMediaType => "Unsupported Media Type",
            StatusCode::RequestedRangeNotSatisfiable => "Requested range not satisfiable",
            StatusCode::ExpectationFailed => "Expectation Failed",
            StatusCode::InternalServerError => "Internal Server Error",
            StatusCode::NotImplemented => "Not Implemented",
            StatusCode::BadGateway => "Bad Gateway",
            StatusCode::ServiceUnavailable => "Service Unavailable",
            StatusCode::GatewayTimeOut => "Gateway Time-out",
            StatusCode::HTTPVersionNotSupported => "HTTP Version not supported",
            StatusCode::ExtensionCode(_) => "Extesion code",
        }
    }

    /// The numeric value of this status code.
    pub fn code(&self) -> (r: usize)
        ensures
            r == spec_status_code(*self),
    {
        match self {
            StatusCode::Continue => 100,
            StatusCode::SwitchingProtocols => 101,
            StatusCode::OK => 200,
            StatusCode::Created => 201,
            StatusCode::Accepted => 202,
            StatusCode::NonAuthoritativeInformation => 203,
            StatusCode::NoContent => 204,
            StatusCode::ResetContent => 205,
            StatusCode::PartialContent => 206,
            StatusCode::MultipleChoices => 300,
            StatusCode::MovedPermanently => 301,
            StatusCode::Found => 302,
            StatusCode::SeeOther => 303,
            StatusCode::NotModified => 304,
            StatusCode::UseProxy => 305,
            StatusCode::TemporaryRedirect => 307,
            StatusCode::BadRequest => 400,
            StatusCode::Unauthorized => 401,
            StatusCode::PaymentRequired => 402,
            StatusCode::Forbidden => 403,
            StatusCode::NotFound => 404,
            StatusCode::MethodNotAllowed => 405,
            StatusCode::NotAcceptable => 406,
            StatusCode::ProxyAuthenticationRequired => 407,
            StatusCode::RequestTimeOut => 408,
            StatusCode::Conflict => 409,
            StatusCode::Gone => 410,
            StatusCode::LengthRequired => 411,
            StatusCode::PreconditionFailed => 412,
            StatusCode::RequestEntityTooLarge => 413,
            StatusCode::RequestURITooLarge => 414,
            StatusCode::UnsupportedMediaType => 415,
            StatusCode::RequestedRangeNotSatisfiable => 416,
            StatusCode::ExpectationFailed => 417,
            StatusCode::InternalServerError => 500,
            StatusCode::NotImplemented => 501,
            StatusCode::BadGateway => 502,
            StatusCode::ServiceUnavailable => 503,
            StatusCode::GatewayTimeOut => 504,
            StatusCode::HTTPVersionNotSupported => 505,
            StatusCode::ExtensionCode(code) => *code,
        }
    }
}

impl From<usize> for StatusCode {
    fn from(code: usize) -> (r: StatusCode) {
        if code == 100 {
            StatusCode::Continue
        } else if code == 101 {
            StatusCode::SwitchingProtocols
        } else if code == 200 {
            StatusCode::OK
        } else if code == 201 {
            StatusCode::Created
        } else if code == 202 {
            StatusCode::Accepted
        } else if code == 203 {
            StatusCode::NonAuthoritativeInformation
        } else if code == 204 {
            StatusCode::NoContent
        } else if code == 205 {
            StatusCode::ResetContent
        } else if code == 206 {
            StatusCode::PartialContent
        } else if code == 300 {
            StatusCode::MultipleChoices
        } else if code == 301 {
            StatusCode::MovedPermanently
        } else if code == 302 {
            StatusCode::Found
        } else if code == 303 {
            StatusCode::SeeOther
        } else if code == 304 {
            StatusCode::NotModified
        } else if code == 305 {
            StatusCode::UseProxy
        } else if code == 307 {
            StatusCode::TemporaryRedirect
        } else if code == 400 {
            StatusCode::BadRequest
        } else if code == 401 {
            StatusCode::Unauthorized
        } else if code == 402 {
            StatusCode::PaymentRequired
        } else if code == 403 {
            StatusCode::Forbidden
        } else if code == 404 {
            StatusCode::NotFound
        } else if code == 405 {
            StatusCode::MethodNotAllowed
        } else if code == 406 {
            StatusCode::NotAcceptable
        } else if code == 407 {
            StatusCode::ProxyAuthenticationRequired
        } else if code == 408 {
            StatusCode::RequestTimeOut
        } else if code == 409 {
            StatusCode::Conflict
        } else if code == 410 {
            StatusCode::Gone
        } else if code == 411 {
            StatusCode::LengthRequired
        } else if code == 412 {
            StatusCode::PreconditionFailed
        } else if code == 413 {
            StatusCode::RequestEntityTooLarge
        } else if code == 414 {
            StatusCode::RequestURITooLarge
        } else if code == 415 {
            StatusCode::UnsupportedMediaType
        } else if code == 416 {
            StatusCode::RequestedRangeNotSatisfiable
        } else if code == 417 {
            StatusCode::ExpectationFailed
        } else if code == 500 {
            StatusCode::InternalServerError
        } else if code == 501 {
            StatusCode::NotImplemented
        } else if code == 502 {
            StatusCode::BadGateway
        } else if code == 503 {
            StatusCode::ServiceUnavailable
        } else if code == 504 {
            StatusCode::GatewayTimeOut
        } else if code == 505 {
            StatusCode::HTTPVersionNotSupported
        } else {
            StatusCode::ExtensionCode(code)
        }
    }
}

impl vstd::std_specs::convert::FromSpecImpl<usize> for StatusCode {
    open spec fn obeys_from_spec() -> bool {
        true
    }

    open spec fn from_spec(code: usize) -> StatusCode {
        spec_status_of(code)
    }
}

/// Turning a registered status code into its number and back returns the
/// same code; an extension code survives when its number is not registered.
pub proof fn lemma_status_code_roundtrip(s: StatusCode)
    requires
        !(s matches StatusCode::ExtensionCode(c) && spec_status_of(c) != StatusCode::ExtensionCode(
            c,
        )),
        spec_status_code(s) <= usize::MAX,
    ensures
        spec_status_of(spec_status_code(s) as usize) == s,
{
}

} // verus!
