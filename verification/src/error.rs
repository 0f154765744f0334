//! Centralized error handling for the netmux core.

use vstd::prelude::*;

verus! {

/// `std::io::Error`: an operating system's error, carried along unread.
#[verifier::external_type_specification]
#[verifier::external_body]
pub struct ExIoError(std::io::Error);

/// `String::from` of a string slice: the same text.
pub assume_specification<'a>[ <String as From<&'a str>>::from ](s: &str) -> (r: String)
    ensures
        r@ == s@,
;

/// Aggregate error type for the netmux core library.
#[derive(Debug)]
pub enum NetmuxError {
    /// Raised when an operation is not supported by the underlying platform.
    Unsupported(&'static str),
    /// A permission problem (e.g. missing CAP_NET_ADMIN for TUN / raw sockets).
    Permission(String),
    /// OS syscall / ioctl error.
    Io { context: String, source: std::io::Error },
    /// Invalid configuration supplied to the aggregator or a policy.
    Config(String),
    /// Interface not found.
    NotFound(String),
    /// An internal invariant was violated.
    Internal(String),
    /// Serialization / configuration persistence error.
    Persist(String),
}

impl NetmuxError {
    /// Convenience constructor for [`NetmuxError::Permission`].
    pub fn permission<S: Into<String>>(msg: S) -> (r: NetmuxError)
        ensures
            r matches NetmuxError::Permission(text) && call_ensures(S::into, (msg,), text),
    {
        NetmuxError::Permission(msg.into())
    }

    /// Convenience constructor for [`NetmuxError::Io`].
    pub fn io<S: Into<String>>(context: S, source: std::io::Error) -> (r: NetmuxError)
        ensures
            r matches NetmuxError::Io { context: text, source: s } && call_ensures(
                S::into,
                (context,),
                text,
            ) && s == source,
    {
        NetmuxError::Io { context: context.into(), source }
    }

    /// Convenience constructor for [`NetmuxError::Config`].
    pub fn config<S: Into<String>>(msg: S) -> (r: NetmuxError)
        ensures
            r matches NetmuxError::Config(text) && call_ensures(S::into, (msg,), text),
    {
        NetmuxError::Config(msg.into())
    }
}

impl From<std::io::Error> for NetmuxError {
    fn from(source: std::io::Error) -> (r: NetmuxError)
        ensures
            r matches NetmuxError::Io { context, source: s } && context@ == "io error"@ && s == source,
    {
        NetmuxError::Io { context: "io error".to_string(), source }
    }
}

impl vstd::std_specs::convert::FromSpecImpl<std::io::Error> for NetmuxError {
    open spec fn obeys_from_spec() -> bool {
        false
    }

    open spec fn from_spec(v: std::io::Error) -> NetmuxError {
        arbitrary()
    }
}

/// Shorthand alias most call sites use.
pub type Result<T> = std::result::Result<T, NetmuxError>;

} // verus!
