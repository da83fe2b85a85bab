//! Stable mod identity: a name-based UUID (version 5, URL namespace) of the mod folder path.

use vstd::prelude::*;
use vstd::string::StringSliceAdditionalSpecFns;

verus! {

broadcast use vstd::string::group_string_axioms;

/// The 128-bit value of the version-5 UUID (URL namespace) that `uuid` computes for `name`.
pub uninterp spec fn uuid_v5_url(name: Seq<u8>) -> u128;

/// Calls `uuid::Uuid::new_v5(&Uuid::NAMESPACE_URL, name)` and returns its 128-bit value.
/// Claimed: the value is `uuid_v5_url(name)`, a function of the bytes alone (SHA-1 based).
#[verifier::external_body]
fn uuid_v5(name: &[u8]) -> (r: u128)
    ensures
        r == uuid_v5_url(name@),
{
    uuid::Uuid::new_v5(&uuid::Uuid::NAMESPACE_URL, name).as_u128()
}

/// Stable mod identity, the same across scans.
#[derive(Debug, Clone, Copy, PartialEq, Eq, Hash, Structural)]
pub struct ModId(pub u128);

impl ModId {
    /// The id of the mod living in folder `path`.
    pub fn from_path(path: &str) -> (id: ModId)
        ensures
            id.0 == uuid_v5_url(path.spec_bytes()),
    {
        ModId(uuid_v5(path.as_bytes()))
    }
}

} // verus!
