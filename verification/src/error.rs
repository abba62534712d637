//! What can go wrong with a request, and how a transport answers.
use crate::text::joined;
use vstd::prelude::*;

verus! {

/// Errors of the modelling service, classified so that a transport can answer with the right
/// status.
#[derive(Debug)]
pub enum ApiError {
    /// Unknown archetype id: a client error.
    UnknownArchetype(String),
    /// Unknown weather id: a client error.
    UnknownWeather(String),
    /// The weather data failed to load: a server error.
    Weather(String),
    /// The request, or the input that it leads to, was rejected: a client error.
    InvalidInput(String),
    /// The engine failed during calculation: a server error.
    Calculation(String),
}

/// How the engine classifies a failure.
#[derive(Clone, Copy, Debug, PartialEq, Eq, Structural)]
pub enum EngineFault {
    /// The assembled input was rejected.
    InvalidRequest,
    /// The input asks for what the engine does not do.
    NotImplemented,
    /// Anything else.
    Other,
}

/// A failure of the engine, with its message.
#[derive(Debug)]
pub struct EngineError {
    pub fault: EngineFault,
    pub message: String,
}

/// An error's kind and text.
pub enum Failure {
    UnknownArchetype(Seq<char>),
    UnknownWeather(Seq<char>),
    Weather(Seq<char>),
    InvalidInput(Seq<char>),
    Calculation(Seq<char>),
}

impl View for ApiError {
    type V = Failure;

    open spec fn view(&self) -> Failure {
        match self {
            ApiError::UnknownArchetype(s) => Failure::UnknownArchetype(s@),
            ApiError::UnknownWeather(s) => Failure::UnknownWeather(s@),
            ApiError::Weather(s) => Failure::Weather(s@),
            ApiError::InvalidInput(s) => Failure::InvalidInput(s@),
            ApiError::Calculation(s) => Failure::Calculation(s@),
        }
    }
}

impl Failure {
    /// The caller's fault.
    pub open spec fn client_error(self) -> bool {
        self is UnknownArchetype || self is UnknownWeather || self is InvalidInput
    }

    /// The HTTP status: not found, unprocessable, or internal error.
    pub open spec fn status(self) -> u16 {
        match self {
            Failure::UnknownArchetype(_) | Failure::UnknownWeather(_) => 404,
            Failure::InvalidInput(_) => 422,
            Failure::Weather(_) | Failure::Calculation(_) => 500,
        }
    }

    /// The text for a person.
    pub open spec fn message(self) -> Seq<char> {
        match self {
            Failure::UnknownArchetype(s) => "unknown archetype: '"@ + s + "'"@,
            Failure::UnknownWeather(s) => "unknown weather: '"@ + s + "'"@,
            Failure::Weather(s) => "failed to load weather data: "@ + s,
            Failure::InvalidInput(s) => "invalid input: "@ + s,
            Failure::Calculation(s) => "calculation failed: "@ + s,
        }
    }
}

impl ApiError {
    /// True if this is the caller's fault (4xx), false if it is the service's (5xx).
    pub fn is_client_error(&self) -> (res: bool)
        ensures
            res == self@.client_error(),
    {
        match self {
            ApiError::UnknownArchetype(_)
            | ApiError::UnknownWeather(_)
            | ApiError::InvalidInput(_) => true,
            ApiError::Weather(_) | ApiError::Calculation(_) => false,
        }
    }

    /// The HTTP status with which a transport answers.
    pub fn status(&self) -> (res: u16)
        ensures
            res == self@.status(),
    {
        match self {
            ApiError::UnknownArchetype(_) | ApiError::UnknownWeather(_) => 404,
            ApiError::InvalidInput(_) => 422,
            ApiError::Weather(_) | ApiError::Calculation(_) => 500,
        }
    }

    /// The text for a person.
    pub fn message(&self) -> (res: String)
        ensures
            res@ == self@.message(),
    {
        let res: String = match self {
            ApiError::UnknownArchetype(s) => joined("unknown archetype: '", s.as_str(), "'"),
            ApiError::UnknownWeather(s) => joined("unknown weather: '", s.as_str(), "'"),
            ApiError::Weather(s) => joined("failed to load weather data: ", s.as_str(), ""),
            ApiError::InvalidInput(s) => joined("invalid input: ", s.as_str(), ""),
            ApiError::Calculation(s) => joined("calculation failed: ", s.as_str(), ""),
        };
        proof {
            reveal_strlit("");
            assert(res@ =~= self@.message());
        }
        res
    }
}

impl vstd::std_specs::convert::FromSpecImpl<EngineError> for ApiError {
    open spec fn obeys_from_spec() -> bool {
        true
    }

    open spec fn from_spec(err: EngineError) -> ApiError {
        match err.fault {
            EngineFault::InvalidRequest | EngineFault::NotImplemented => ApiError::InvalidInput(
                err.message,
            ),
            EngineFault::Other => ApiError::Calculation(err.message),
        }
    }
}

impl From<EngineError> for ApiError {
    fn from(err: EngineError) -> (res: ApiError) {
        match err.fault {
            EngineFault::InvalidRequest | EngineFault::NotImplemented => ApiError::InvalidInput(
                err.message,
            ),
            EngineFault::Other => ApiError::Calculation(err.message),
        }
    }
}

/// The caller's errors are exactly those that are answered with a 4xx status, and every other
/// error is answered with a 5xx status.
pub proof fn client_errors_are_4xx(f: Failure)
    ensures
        f.client_error() == (400 <= f.status() < 500),
        !f.client_error() == (500 <= f.status() < 600),
{
}

/// An engine failure is the caller's fault exactly when the engine rejected the input or does not
/// do what the input asks for.
pub proof fn engine_faults_are_classified(err: EngineError)
    ensures
        ({
            let e = <ApiError as vstd::std_specs::convert::FromSpec<EngineError>>::from_spec(err);
            e@.client_error() == (err.fault is InvalidRequest || err.fault is NotImplemented)
        }),
{
}

} // verus!
