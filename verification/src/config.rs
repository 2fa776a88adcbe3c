//! Service configuration handed in by the process boundary: where the
//! directory server lives and how to bind to it. The core only carries
//! these values; connecting is the boundary's business.

use vstd::prelude::*;

verus! {

/// Directory-server settings. `ldap_password` is a secret: boundary code
/// must keep it out of rendered output and logs.
pub struct Config {
    pub ldap_username: String,
    pub ldap_password: String,
    pub ldap_server: String,
    pub ldap_base_dn: String,
    pub ldap_user_filter: String,
}

} // verus!
