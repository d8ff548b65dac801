use vstd::prelude::*;

verus! {

/// The version of the REST protocol that a request asks for.
#[derive(Clone, Copy, Debug, PartialEq, Eq, Structural)]
pub enum ProtocolVersion {
    V1,
}

/// Reads the protocol version from the raw bytes of the `GridProtocolVersion` header, if the
/// request carried one. Every value is served by the first version: a missing header, bytes
/// that are not text, and an unrecognised value all fall back to it rather than failing the
/// request.
pub fn protocol_version_from_header(header: Option<&[u8]>) -> (r: ProtocolVersion)
    ensures
        r == ProtocolVersion::V1,
{
    ProtocolVersion::V1
}

} // verus!
