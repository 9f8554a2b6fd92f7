//! Orchestration-level decisions of the configure, status and kill
//! workflows, computed from the plain observations the I/O layer hands in:
//! the properties content to write, the status row of an instance, and
//! whether and whom to kill.

use vstd::prelude::*;

verus! {

use vstd::string::StringExecFns;
use crate::ports::{PortPlan, ConfigError, spec_http_port, MAX_INSTANCE_ID, derive_plan};
use crate::props::{upsert, upsert_spec, spec_cookie_key, spec_jdbc_key};

/// The managed database URL for a database name.
pub open spec fn spec_jdbc_url(db: Seq<char>) -> Seq<char> {
    "jdbc:hsqldb:${liferay.home}/data/hypersonic/"@ + db + ";hsqldb.write_delay=false"@
}

/// Builds the managed database URL for the plan's database.
pub fn jdbc_url(plan: &PortPlan) -> (r: String)
    ensures
        r@ == spec_jdbc_url(plan.database_name@),
{
    String::from_str("jdbc:hsqldb:${liferay.home}/data/hypersonic/").concat(
        plan.database_name.as_str(),
    ).concat(";hsqldb.write_delay=false")
}

/// The replacement set the configure workflow upserts: the plan's session
/// cookie and database URL under the two managed keys, in that order.
pub open spec fn configure_reps(plan: PortPlan) -> Seq<(Seq<char>, Seq<char>)> {
    seq![
        (spec_cookie_key(), plan.session_cookie_name@),
        (spec_jdbc_key(), spec_jdbc_url(plan.database_name@)),
    ]
}

/// The properties-file lines after configuring: every managed line
/// removed, then the plan's cookie line and database-URL line appended.
pub fn configured_properties(lines: &Vec<String>, plan: &PortPlan) -> (r: Vec<String>)
    ensures
        r.deep_view() == upsert_spec(lines.deep_view(), configure_reps(*plan)),
{
    let mut reps: Vec<(String, String)> = Vec::new();
    reps.push((String::from_str("session.cookie.name"), plan.session_cookie_name.clone()));
    reps.push((String::from_str("jdbc.default.url"), jdbc_url(plan)));
    proof {
        assert(reps.deep_view() =~~= configure_reps(*plan));
    }
    upsert(lines, &reps)
}

/// The observed status of one instance: recomputed on every query, never
/// cached, since the underlying process can start or stop between calls.
pub struct InstanceStatus {
    pub id: u16,
    pub derived_port: u16,
    pub is_listening: bool,
    pub owner_pid: Option<u64>,
}

/// Builds the status row of instance `id` from the liveness probe result
/// and the process lookup the I/O layer performed. A process owner is only
/// reported for a listening instance.
pub fn instance_status(id: u16, is_listening: bool, owner_pid: Option<u64>) -> (r: Result<
    InstanceStatus,
    ConfigError,
>)
    ensures
        r is Ok <==> id <= MAX_INSTANCE_ID,
        r is Err ==> r == Result::<InstanceStatus, ConfigError>::Err(ConfigError::IdOutOfRange),
        r is Ok ==> ({
            let s = r.unwrap();
            &&& s.id == id
            &&& s.derived_port == spec_http_port(id as int)
            &&& s.is_listening == is_listening
            &&& s.owner_pid == (if is_listening {
                owner_pid
            } else {
                Option::<u64>::None
            })
        }),
{
    let plan = match derive_plan(id, None) {
        Ok(p) => p,
        Err(e) => {
            return Err(e);
        },
    };
    Ok(
        InstanceStatus {
            id,
            derived_port: plan.http_port,
            is_listening,
            owner_pid: if is_listening {
                owner_pid
            } else {
                None
            },
        },
    )
}

/// Decides the kill workflow from the probe and the process lookup: a port
/// with nothing bound fails fast as not running; a bound port without a
/// matching process reports that no process was found; otherwise the
/// matched process id is the one to terminate.
pub fn kill_decision(is_listening: bool, pid: Option<u64>) -> (r: Result<u64, ConfigError>)
    ensures
        !is_listening ==> r == Result::<u64, ConfigError>::Err(ConfigError::NotRunning),
        (is_listening && pid is None) ==> r == Result::<u64, ConfigError>::Err(
            ConfigError::ProcessNotFound,
        ),
        (is_listening && pid is Some) ==> r == Result::<u64, ConfigError>::Ok(pid.unwrap()),
{
    if !is_listening {
        return Err(ConfigError::NotRunning);
    }
    match pid {
        Some(p) => Ok(p),
        None => Err(ConfigError::ProcessNotFound),
    }
}

/// The shell port the summary derives from the currently configured HTTP
/// port: the instance offset, floored at zero, re-based onto the shell's
/// own base port.
pub fn gogo_shell_port(http_port: u16) -> (r: u32)
    ensures
        r == 11311 + 100 * (if http_port / 100 >= 80 {
            http_port / 100 - 80
        } else {
            0
        }) as u32,
{
    let h: u16 = http_port / 100;
    let off: u32 = if h >= 80 {
        (h - 80) as u32
    } else {
        0
    };
    11311 + 100 * off
}

} // verus!
