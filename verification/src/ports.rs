//! Deterministic derivation of an instance's port and identity set from its
//! integer id: four ports spaced 100 apart from fixed bases, a session
//! cookie name, and a database name.

use vstd::prelude::*;

verus! {

use vstd::string::StringExecFns;
use crate::text::{dec_str, u16_to_string};

/// The kinds of failure this library reports.
#[derive(Clone, Copy, Debug, PartialEq, Eq, Structural)]
pub enum ConfigError {
    /// A required file, directory or installation was not found.
    NotFound,
    /// A configuration document could not be parsed.
    ParseError,
    /// A filesystem write or delete failed.
    IoError,
    /// The instance was expected to be running but its port is not bound.
    NotRunning,
    /// No operating-system process matched the expected server process.
    ProcessNotFound,
    /// The instance id is so large that a derived port would not fit in a
    /// 16-bit port number.
    IdOutOfRange,
}

/// Largest instance id whose four derived ports all fit in a `u16`.
pub const MAX_INSTANCE_ID: u16 = 570;

/// Port offset of instance `id`: instances are spaced 100 ports apart.
pub open spec fn spec_offset(id: int) -> int {
    100 * id
}

/// Shutdown control port of instance `id`.
pub open spec fn spec_shutdown_port(id: int) -> int {
    8005 + spec_offset(id)
}

/// HTTP connector port of instance `id`.
pub open spec fn spec_http_port(id: int) -> int {
    8080 + spec_offset(id)
}

/// AJP connector port of instance `id`.
pub open spec fn spec_ajp_port(id: int) -> int {
    8009 + spec_offset(id)
}

/// SSL redirect port of instance `id`.
pub open spec fn spec_ssl_redirect_port(id: int) -> int {
    8443 + spec_offset(id)
}

/// Session cookie name of instance `id`.
pub open spec fn spec_cookie_name(id: int) -> Seq<char> {
    "LFR_SESSION_"@ + dec_str(id)
}

/// Database name of instance `id` when the caller supplies no override.
pub open spec fn spec_default_db_name(id: int) -> Seq<char> {
    "lportal_"@ + dec_str(id)
}

/// The full derived port and identity set of one instance.
pub struct PortPlan {
    pub id: u16,
    pub shutdown_port: u16,
    pub http_port: u16,
    pub ajp_port: u16,
    pub ssl_redirect_port: u16,
    pub session_cookie_name: String,
    pub database_name: String,
}

impl PortPlan {
    /// The plan's fields carry exactly the values derived from its id.
    pub open spec fn wf(self) -> bool {
        &&& self.id <= MAX_INSTANCE_ID
        &&& self.shutdown_port == spec_shutdown_port(self.id as int)
        &&& self.http_port == spec_http_port(self.id as int)
        &&& self.ajp_port == spec_ajp_port(self.id as int)
        &&& self.ssl_redirect_port == spec_ssl_redirect_port(self.id as int)
        &&& self.session_cookie_name@ == spec_cookie_name(self.id as int)
    }
}

/// Derives the full port and identity set of instance `id`.
///
/// The mapping is a pure function of `id` and the optional database-name
/// override. Ids above `MAX_INSTANCE_ID` are rejected rather than letting a
/// derived port wrap around the 16-bit port space.
pub fn derive_plan(id: u16, db_name: Option<String>) -> (r: Result<PortPlan, ConfigError>)
    ensures
        r is Ok <==> id <= MAX_INSTANCE_ID,
        r is Err ==> r == Result::<PortPlan, ConfigError>::Err(ConfigError::IdOutOfRange),
        r is Ok ==> r.unwrap().wf() && r.unwrap().id == id,
        r is Ok ==> r.unwrap().database_name@ == (match db_name {
            Option::Some(n) => n@,
            Option::None => spec_default_db_name(id as int),
        }),
{
    if id > MAX_INSTANCE_ID {
        return Err(ConfigError::IdOutOfRange);
    }
    let offset: u16 = 100 * id;
    let cookie: String = String::from_str("LFR_SESSION_").concat(u16_to_string(id).as_str());
    let db: String = match db_name {
        Some(n) => n,
        None => String::from_str("lportal_").concat(u16_to_string(id).as_str()),
    };
    Ok(
        PortPlan {
            id,
            shutdown_port: 8005 + offset,
            http_port: 8080 + offset,
            ajp_port: 8009 + offset,
            ssl_redirect_port: 8443 + offset,
            session_cookie_name: cookie,
            database_name: db,
        },
    )
}

/// Distinct instance ids in the supported range never share a port: each of
/// the four derived ports of `a` differs from the corresponding derived
/// port of `b`, and the HTTP port follows the documented formula.
pub proof fn lemma_distinct_instance_ports(a: int, b: int)
    requires
        0 <= a <= 99,
        0 <= b <= 99,
        a != b,
    ensures
        spec_http_port(a) == 8080 + 100 * a,
        spec_shutdown_port(a) != spec_shutdown_port(b),
        spec_http_port(a) != spec_http_port(b),
        spec_ajp_port(a) != spec_ajp_port(b),
        spec_ssl_redirect_port(a) != spec_ssl_redirect_port(b),
{
}

} // verus!
