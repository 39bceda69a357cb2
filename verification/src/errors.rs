//! The failure taxonomy of the resolving pipeline.

use vstd::prelude::*;

verus! {

/// A required field or parameter key of a link, named so that a missing one
/// can be reported precisely.
#[derive(Clone, Copy, Debug, PartialEq, Eq, Structural)]
pub enum Field {
    /// The parameter segment after the `/?` separator.
    Params,
    /// The first `:`-separated field of the path segment.
    Ip,
    /// The second `:`-separated field of the path segment.
    Port,
    /// The third `:`-separated field of the path segment.
    Protocol,
    /// The fourth `:`-separated field of the path segment.
    Method,
    /// The fifth `:`-separated field of the path segment.
    Obfs,
    /// The sixth `:`-separated field of the path segment.
    Password,
    /// The value of a `key=value` parameter pair, absent when the pair
    /// holds no `=`.
    ParamValue,
    /// The required parameter key `obfsparam`.
    Obfsparam,
    /// The required parameter key `remarks`.
    Remarks,
    /// The required parameter key `group`.
    Group,
}

/// Everything that can go wrong while resolving a subscription link.
#[derive(Clone, Copy, Debug, PartialEq, Eq, Structural)]
pub enum ResolveError {
    /// The base64 alphabet or length is violated, even after re-padding.
    DecodeError,
    /// The decoded bytes are not valid UTF-8.
    EncodingError,
    /// The link does not start with the `ssr://` scheme prefix.
    InvalidScheme,
    /// A required field or parameter key is absent.
    NotFound(Field),
    /// The port field is not a non-negative integer that fits in 32 bits.
    MalformedInteger,
}

impl Field {
    /// The key or field name, for diagnostics.
    pub fn name(&self) -> (r: &'static str)
        ensures
            r@ == self.name_spec(),
    {
        match self {
            Field::Params => "params",
            Field::Ip => "ip",
            Field::Port => "port",
            Field::Protocol => "protocol",
            Field::Method => "method",
            Field::Obfs => "obfs",
            Field::Password => "password",
            Field::ParamValue => "param value",
            Field::Obfsparam => "obfsparam",
            Field::Remarks => "remarks",
            Field::Group => "group",
        }
    }

    /// The characters of [`Self::name`].
    pub open spec fn name_spec(&self) -> Seq<char> {
        match self {
            Field::Params => "params"@,
            Field::Ip => "ip"@,
            Field::Port => "port"@,
            Field::Protocol => "protocol"@,
            Field::Method => "method"@,
            Field::Obfs => "obfs"@,
            Field::Password => "password"@,
            Field::ParamValue => "param value"@,
            Field::Obfsparam => "obfsparam"@,
            Field::Remarks => "remarks"@,
            Field::Group => "group"@,
        }
    }
}

impl ResolveError {
    /// The error that reports a missing field or parameter key.
    pub fn not_found(field: Field) -> (r: ResolveError)
        ensures
            r == ResolveError::NotFound(field),
    {
        ResolveError::NotFound(field)
    }

    /// A short human-readable description, in place of `Display`.
    pub fn message(&self) -> (r: &'static str)
        ensures
            r@ == self.message_spec(),
    {
        match self {
            ResolveError::DecodeError => "decode base64 failed",
            ResolveError::EncodingError => "decoded bytes are not valid UTF-8",
            ResolveError::InvalidScheme => "link does not start with 'ssr://'",
            ResolveError::NotFound(Field::Params) => "can not found 'params' in link",
            ResolveError::NotFound(Field::Ip) => "can not found 'ip' in link",
            ResolveError::NotFound(Field::Port) => "can not found 'port' in link",
            ResolveError::NotFound(Field::Protocol) => "can not found 'protocol' in link",
            ResolveError::NotFound(Field::Method) => "can not found 'method' in link",
            ResolveError::NotFound(Field::Obfs) => "can not found 'obfs' in link",
            ResolveError::NotFound(Field::Password) => "can not found 'password' in link",
            ResolveError::NotFound(Field::ParamValue) => "can not found 'param value' in link",
            ResolveError::NotFound(Field::Obfsparam) => "can not found 'obfsparam' in link",
            ResolveError::NotFound(Field::Remarks) => "can not found 'remarks' in link",
            ResolveError::NotFound(Field::Group) => "can not found 'group' in link",
            ResolveError::MalformedInteger => "port is not a non-negative integer",
        }
    }

    /// The characters of [`Self::message`].
    pub open spec fn message_spec(&self) -> Seq<char> {
        match self {
            ResolveError::DecodeError => "decode base64 failed"@,
            ResolveError::EncodingError => "decoded bytes are not valid UTF-8"@,
            ResolveError::InvalidScheme => "link does not start with 'ssr://'"@,
            ResolveError::NotFound(Field::Params) => "can not found 'params' in link"@,
            ResolveError::NotFound(Field::Ip) => "can not found 'ip' in link"@,
            ResolveError::NotFound(Field::Port) => "can not found 'port' in link"@,
            ResolveError::NotFound(Field::Protocol) => "can not found 'protocol' in link"@,
            ResolveError::NotFound(Field::Method) => "can not found 'method' in link"@,
            ResolveError::NotFound(Field::Obfs) => "can not found 'obfs' in link"@,
            ResolveError::NotFound(Field::Password) => "can not found 'password' in link"@,
            ResolveError::NotFound(Field::ParamValue) => "can not found 'param value' in link"@,
            ResolveError::NotFound(Field::Obfsparam) => "can not found 'obfsparam' in link"@,
            ResolveError::NotFound(Field::Remarks) => "can not found 'remarks' in link"@,
            ResolveError::NotFound(Field::Group) => "can not found 'group' in link"@,
            ResolveError::MalformedInteger => "port is not a non-negative integer"@,
        }
    }
}

} // verus!
