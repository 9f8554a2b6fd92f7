use lfr_local::manager::{configured_properties, gogo_shell_port, instance_status, jdbc_url, kill_decision};
use lfr_local::ports::{derive_plan, ConfigError, MAX_INSTANCE_ID};
use lfr_local::procs::{find_process, ProcEntry};
use lfr_local::props::{property_value, strip_managed, upsert};

fn s(x: &str) -> String {
    x.to_string()
}

#[test]
fn test_derive_port_formula() {
    for id in [0u16, 1, 2, 42, 99] {
        let plan = derive_plan(id, None).unwrap();
        assert_eq!(plan.shutdown_port, 8005 + 100 * id);
        assert_eq!(plan.http_port, 8080 + 100 * id);
        assert_eq!(plan.ajp_port, 8009 + 100 * id);
        assert_eq!(plan.ssl_redirect_port, 8443 + 100 * id);
    }
}

#[test]
fn test_derive_identity_set() {
    let plan = derive_plan(7, None).unwrap();
    assert_eq!(plan.session_cookie_name, "LFR_SESSION_7");
    assert_eq!(plan.database_name, "lportal_7");
    let custom = derive_plan(7, Some(s("mydb"))).unwrap();
    assert_eq!(custom.database_name, "mydb");
    assert_eq!(custom.session_cookie_name, "LFR_SESSION_7");
}

#[test]
fn test_derive_ports_never_collide_in_range() {
    for a in 0u16..100 {
        let pa = derive_plan(a, None).unwrap();
        for b in 0u16..100 {
            if a != b {
                let pb = derive_plan(b, None).unwrap();
                assert_ne!(pa.shutdown_port, pb.shutdown_port);
                assert_ne!(pa.http_port, pb.http_port);
                assert_ne!(pa.ajp_port, pb.ajp_port);
                assert_ne!(pa.ssl_redirect_port, pb.ssl_redirect_port);
            }
        }
    }
}

#[test]
fn test_derive_rejects_oversized_id() {
    assert!(matches!(derive_plan(MAX_INSTANCE_ID + 1, None), Err(ConfigError::IdOutOfRange)));
    assert!(derive_plan(MAX_INSTANCE_ID, None).is_ok());
}

#[test]
fn test_upsert_round_trip_single_cookie_line() {
    let lines = vec![s("foo=bar"), s("session.cookie.name=Y"), s("other=1")];
    let reps = vec![(s("session.cookie.name"), s("X"))];
    let out = upsert(&lines, &reps);
    let cookie_lines: Vec<&String> =
        out.iter().filter(|l| l.starts_with("session.cookie.name")).collect();
    assert_eq!(cookie_lines.len(), 1);
    assert_eq!(cookie_lines[0], "session.cookie.name=X");
    assert_eq!(out, vec![s("foo=bar"), s("other=1"), s("session.cookie.name=X")]);
}

#[test]
fn test_upsert_on_missing_file_appends_all() {
    let lines: Vec<String> = Vec::new();
    let reps = vec![(s("a"), s("1")), (s("b"), s("2"))];
    let out = upsert(&lines, &reps);
    assert_eq!(out, vec![s("a=1"), s("b=2")]);
}

#[test]
fn test_upsert_is_idempotent_for_managed_keys() {
    let lines = vec![s("keep=me"), s("jdbc.default.url=old")];
    let reps = vec![(s("session.cookie.name"), s("C")), (s("jdbc.default.url"), s("U"))];
    let once = upsert(&lines, &reps);
    let twice = upsert(&once, &reps);
    assert_eq!(once, twice);
}

#[test]
fn test_reset_props_removes_managed_keys_only() {
    let lines = vec![
        s("# a comment"),
        s("session.cookie.name=LFR_SESSION_2"),
        s("custom=kept"),
        s("jdbc.default.url=jdbc:hsqldb:somewhere"),
        s("last=line"),
    ];
    let out = strip_managed(&lines);
    assert_eq!(out, vec![s("# a comment"), s("custom=kept"), s("last=line")]);
}

#[test]
fn test_configured_properties_writes_both_managed_lines() {
    let plan = derive_plan(2, None).unwrap();
    let lines = vec![s("session.cookie.name=OLD"), s("keep=1")];
    let out = configured_properties(&lines, &plan);
    assert_eq!(
        out,
        vec![
            s("keep=1"),
            s("session.cookie.name=LFR_SESSION_2"),
            s("jdbc.default.url=jdbc:hsqldb:${liferay.home}/data/hypersonic/lportal_2;hsqldb.write_delay=false"),
        ]
    );
}

#[test]
fn test_jdbc_url_formula() {
    let plan = derive_plan(0, Some(s("demo"))).unwrap();
    assert_eq!(
        jdbc_url(&plan),
        "jdbc:hsqldb:${liferay.home}/data/hypersonic/demo;hsqldb.write_delay=false"
    );
}

#[test]
fn test_property_value_lookup() {
    let lines = vec![s("# comment"), s("key.a = spaced value "), s("key.b=plain")];
    assert_eq!(property_value(&lines, "key.a"), Some(s("spaced value")));
    assert_eq!(property_value(&lines, "key.b"), Some(s("plain")));
    assert_eq!(property_value(&lines, "key.c"), None);
    assert_eq!(property_value(&lines, "# comment"), None);
}

#[test]
fn test_find_process_first_match_case_folded() {
    let procs = vec![
        ProcEntry { pid: 10, name: s("bash") },
        ProcEntry { pid: 20, name: s("JaVa -jar tomcat") },
        ProcEntry { pid: 30, name: s("java") },
    ];
    assert_eq!(find_process(&procs, "java"), Some(20));
    assert_eq!(find_process(&procs, "postgres"), None);
}

#[test]
fn test_instance_status_rows() {
    let up = instance_status(1, true, Some(44)).unwrap();
    assert_eq!(up.derived_port, 8180);
    assert!(up.is_listening);
    assert_eq!(up.owner_pid, Some(44));
    let down = instance_status(1, false, Some(44)).unwrap();
    assert!(!down.is_listening);
    assert_eq!(down.owner_pid, None);
    assert!(matches!(
        instance_status(MAX_INSTANCE_ID + 1, false, None),
        Err(ConfigError::IdOutOfRange)
    ));
}

#[test]
fn test_kill_decision() {
    assert_eq!(kill_decision(false, Some(5)), Err(ConfigError::NotRunning));
    assert_eq!(kill_decision(true, None), Err(ConfigError::ProcessNotFound));
    assert_eq!(kill_decision(true, Some(5)), Ok(5));
}

#[test]
fn test_gogo_shell_port_formula() {
    assert_eq!(gogo_shell_port(8080), 11311);
    assert_eq!(gogo_shell_port(8280), 11511);
    assert_eq!(gogo_shell_port(80), 11311);
    assert_eq!(gogo_shell_port(799), 11311);
}
