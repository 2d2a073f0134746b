//! Where the receiver binds.

use vstd::prelude::*;
use vstd::string::StringExecFns;

verus! {

/// The host that the receiver binds when none is given.
pub const DEFAULT_HOST: &'static str = "127.0.0.1";

/// The port that the receiver binds when none is given.
pub const DEFAULT_PORT: &'static str = "13265";

/// The address text `host:port`.
pub fn connection_string(host: &str, port: &str) -> (r: String)
    ensures
        r@ == host@ + seq![':'] + port@,
{
    let mut r = host.to_owned();
    r.append(":");
    r.append(port);
    proof {
        reveal_strlit(":");
    }
    r
}

/// An owned copy of an optional borrowed string.
pub fn upgrade_str_option(o: Option<&str>) -> (r: Option<String>)
    ensures
        r is Some <==> o is Some,
        r matches Some(s) ==> s@ == o->0@,
{
    match o {
        Some(s) => Some(s.to_owned()),
        None => None,
    }
}

} // verus!
