use vstd::prelude::*;

verus! {

#[verifier::external_type_specification]
#[verifier::external_body]
pub struct ExParseError(url::ParseError);

#[verifier::external_type_specification]
#[verifier::external_body]
pub struct ExIoError(std::io::Error);

/// Why fetching or extracting a page failed.
#[derive(Debug)]
pub enum Error {
    /// The resource could not be reached; the transport's message.
    NetworkError(String),
    /// A URL that is not a valid absolute URL.
    UrlParseError(url::ParseError),
    /// The resource answered with a status other than success.
    Unexpected,
    /// The input could not be read or parsed.
    IOError(std::io::Error),
}

impl From<url::ParseError> for Error {
    fn from(err: url::ParseError) -> (r: Error)
        ensures
            r == Error::UrlParseError(err),
    {
        Error::UrlParseError(err)
    }
}

impl vstd::std_specs::convert::FromSpecImpl<url::ParseError> for Error {
    open spec fn obeys_from_spec() -> bool {
        true
    }

    open spec fn from_spec(v: url::ParseError) -> Error {
        Error::UrlParseError(v)
    }
}

impl From<std::io::Error> for Error {
    fn from(err: std::io::Error) -> (r: Error)
        ensures
            r == Error::IOError(err),
    {
        Error::IOError(err)
    }
}

impl vstd::std_specs::convert::FromSpecImpl<std::io::Error> for Error {
    open spec fn obeys_from_spec() -> bool {
        true
    }

    open spec fn from_spec(v: std::io::Error) -> Error {
        Error::IOError(v)
    }
}

/// Relies on the `Display` impl of `url::ParseError` for its message.
#[verifier::external_body]
fn parse_error_text(e: &url::ParseError) -> String {
    e.to_string()
}

/// Relies on the `Display` impl of `std::io::Error` for its message.
#[verifier::external_body]
fn io_error_text(e: &std::io::Error) -> String {
    e.to_string()
}

/// Label that a message of each kind of error starts with.
pub open spec fn label(e: Error) -> Seq<char> {
    match e {
        Error::NetworkError(_) => "NetworkError:  "@,
        Error::UrlParseError(_) => "UrlParseError:  "@,
        Error::Unexpected => "UnexpectedError"@,
        Error::IOError(_) => "InputOutputError: "@,
    }
}

impl Error {
    /// A human-readable message: the kind's label followed by the cause.
    pub fn describe(&self) -> (r: String)
        ensures
            r@.len() >= label(*self).len(),
            r@.subrange(0, label(*self).len() as int) == label(*self),
            *self is Unexpected ==> r@ == label(*self),
            self matches Error::NetworkError(m) ==> r@ == label(*self) + m@,
    {
        let (mut r, cause) = match self {
            Error::NetworkError(m) => (String::from_str("NetworkError:  "), m.clone()),
            Error::UrlParseError(e) => (String::from_str("UrlParseError:  "), parse_error_text(e)),
            Error::Unexpected => (String::from_str("UnexpectedError"), String::new()),
            Error::IOError(e) => (String::from_str("InputOutputError: "), io_error_text(e)),
        };
        let ghost start = r@;
        r.append(cause.as_str());
        assert(r@.subrange(0, start.len() as int) =~= start);
        r
    }
}

} // verus!
