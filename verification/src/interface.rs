//! The egress interface that a route forwards through.

use vstd::prelude::*;

verus! {

/// `pnet::util::MacAddr`, a hardware address. The table carries it through
/// and never looks inside.
#[verifier::external_type_specification]
#[verifier::external_body]
pub struct ExMacAddr(pnet::util::MacAddr);

/// A network interface: its name and its hardware address.
#[derive(Debug, PartialEq, Eq)]
pub struct Interface {
    pub name: String,
    pub mac: pnet::util::MacAddr,
}

impl Clone for Interface {
    fn clone(&self) -> (r: Self)
        ensures
            r == *self,
    {
        Interface { name: self.name.clone(), mac: self.mac }
    }
}

} // verus!
