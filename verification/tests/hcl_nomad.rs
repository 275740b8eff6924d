use deploy_server::hcl::{
    allowed_meta, default_parsed, filter_meta, meta_value_as_str, parse_hcl, parse_meta_value,
    value_is_empty, MetaValue,
};
use deploy_server::nomad::{
    cmd_result_from, dispatch_cmd, join_args, parse_job_status_ids, program_of, purge_job_args,
    register_args, status_args, CmdOutcome,
};
use deploy_server::strmap::StrMap;

const SPEC: &str = r#"
job "multichain-testing" {
  parameterized {
    meta_optional = ["nodes", "image", "debug"]
    meta_required = [ "chain" ]
  }
  meta {
    # a comment
    nodes = 3
    image = "polkajam:latest"
    debug = false
    ratio = 1.5
    offset = -2
  }
  group "g" {
    count = 7
  }
}
"#;

fn key(s: &str) -> Vec<char> {
    s.chars().collect()
}

fn text_of(v: &MetaValue) -> String {
    meta_value_as_str(v).into_iter().collect()
}

fn strings(v: &[&str]) -> Vec<String> {
    v.iter().map(|s| s.to_string()).collect()
}

#[test]
fn parses_job_file_parameters() {
    let p = parse_hcl(SPEC);
    assert_eq!(p.optional, strings(&["nodes", "image", "debug"]));
    assert_eq!(p.required, strings(&["chain"]));
    assert_eq!(p.job_name.as_deref(), Some("multichain-testing"));
    assert_eq!(p.count, Some(7));
    assert_eq!(p.defaults.len(), 5);
    assert!(matches!(p.defaults.get(&key("nodes")), Some(MetaValue::Int(3))));
    assert!(matches!(p.defaults.get(&key("debug")), Some(MetaValue::Bool(false))));
    assert!(matches!(p.defaults.get(&key("offset")), Some(MetaValue::Int(-2))));
    match p.defaults.get(&key("image")) {
        Some(MetaValue::Str(s)) => assert_eq!(s, "polkajam:latest"),
        _ => panic!("string default expected"),
    }
    match p.defaults.get(&key("ratio")) {
        Some(MetaValue::Text(s)) => assert_eq!(s, "1.5"),
        _ => panic!("literal default expected"),
    }
}

#[test]
fn empty_job_file_declares_nothing() {
    let p = parse_hcl("");
    assert!(p.optional.is_empty() && p.required.is_empty());
    assert_eq!(p.job_name, None);
    assert_eq!(p.count, None);
    assert_eq!(p.defaults.len(), 0);
    let d = default_parsed();
    assert!(d.optional.is_empty() && d.required.is_empty() && d.job_name.is_none() && d.count.is_none());
}

#[test]
fn meta_values_read_like_json() {
    assert!(matches!(parse_meta_value(&key("\"x\"")), MetaValue::Str(s) if s == "x"));
    assert!(matches!(parse_meta_value(&key("\"\"")), MetaValue::Str(s) if s.is_empty()));
    assert!(matches!(parse_meta_value(&key("true")), MetaValue::Bool(true)));
    assert!(matches!(parse_meta_value(&key("42")), MetaValue::Int(42)));
    assert!(matches!(parse_meta_value(&key("-9223372036854775808")), MetaValue::Int(i64::MIN)));
    assert!(matches!(parse_meta_value(&key("9223372036854775808")), MetaValue::Text(_)));
    assert!(matches!(parse_meta_value(&key("abc")), MetaValue::Text(s) if s == "abc"));
    assert_eq!(text_of(&MetaValue::Int(-5)), "-5");
    assert_eq!(text_of(&MetaValue::Bool(true)), "true");
    assert_eq!(text_of(&MetaValue::Null), "null");
    assert!(value_is_empty(&MetaValue::Null));
    assert!(value_is_empty(&MetaValue::Str(String::new())));
    assert!(!value_is_empty(&MetaValue::Int(0)));
}

#[test]
fn filter_keeps_allowed_non_empty_values() {
    let p = parse_hcl(SPEC);
    let allowed = allowed_meta(&p);
    assert_eq!(allowed, strings(&["chain", "nodes", "image", "debug"]));
    let mut m: StrMap<MetaValue> = StrMap::new();
    m.insert(key("chain"), MetaValue::Str("dev".to_string()));
    m.insert(key("nodes"), MetaValue::Int(4));
    m.insert(key("image"), MetaValue::Str(String::new()));
    m.insert(key("other"), MetaValue::Str("x".to_string()));
    m.insert(key("debug"), MetaValue::Null);
    let f = filter_meta(&m, &allowed);
    assert_eq!(f.len(), 2);
    assert!(f.contains_key(&key("chain")) && f.contains_key(&key("nodes")));
    let again = filter_meta(&f, &allowed);
    assert_eq!(again.len(), 2);
}

#[test]
fn dispatch_command_lists_meta_in_key_order() {
    let mut m: StrMap<MetaValue> = StrMap::new();
    m.insert(key("zone"), MetaValue::Str("a".to_string()));
    m.insert(key("count"), MetaValue::Int(3));
    m.insert(key("skip"), MetaValue::Str(String::new()));
    m.insert(key("flag"), MetaValue::Bool(true));
    assert_eq!(
        dispatch_cmd("job1", &m, true),
        strings(&["nomad", "job", "dispatch", "-detach", "-meta", "count=3", "-meta", "flag=true", "-meta", "zone=a", "job1"])
    );
    assert_eq!(dispatch_cmd("job1", &StrMap::new(), false), strings(&["nomad", "job", "dispatch", "job1"]));
}

#[test]
fn command_results() {
    let args = strings(&["nomad", "status", "x"]);
    assert_eq!(join_args(&args), "nomad status x");
    assert_eq!(program_of(&args), "nomad");
    assert_eq!(program_of(&vec![]), "nomad");
    let r = cmd_result_from(&args, CmdOutcome::Exited { code: Some(3), stdout: "o".to_string(), stderr: "e".to_string() });
    assert_eq!((r.cmd.as_str(), r.returncode, r.stdout.as_str(), r.stderr.as_str()), ("nomad status x", 3, "o", "e"));
    let r = cmd_result_from(&args, CmdOutcome::Exited { code: None, stdout: String::new(), stderr: String::new() });
    assert_eq!(r.returncode, -1);
    let r = cmd_result_from(&args, CmdOutcome::SpawnFailed { not_found: true, message: "nf".to_string() });
    assert_eq!((r.returncode, r.stderr.as_str()), (127, "nf"));
    let r = cmd_result_from(&args, CmdOutcome::SpawnFailed { not_found: false, message: "x".to_string() });
    assert_eq!(r.returncode, 1);
    let r = cmd_result_from(&args, CmdOutcome::TimedOut);
    assert_eq!((r.returncode, r.stdout.as_str(), r.stderr.as_str()), (124, "", "[timeout]"));
}

#[test]
fn nomad_command_lines() {
    assert_eq!(register_args("/a/job.hcl"), strings(&["nomad", "job", "run", "/a/job.hcl"]));
    assert_eq!(status_args("j"), strings(&["nomad", "status", "j"]));
    assert_eq!(purge_job_args("j/dispatch-1"), strings(&["nomad", "job", "stop", "-purge", "-yes", "-detach", "j/dispatch-1"]));
}

#[test]
fn job_status_ids_skip_headers_and_notes() {
    let out = "ID    Type   Status\nstress-test-1/dispatch-1  batch  running\n\n==> note\n  stress-test-1/dispatch-2 batch dead\n";
    assert_eq!(parse_job_status_ids(out), strings(&["stress-test-1/dispatch-1", "stress-test-1/dispatch-2"]));
    assert!(parse_job_status_ids("").is_empty());
}

#[test]
fn entry_order_depends_only_on_contents() {
    let mut a: StrMap<MetaValue> = StrMap::new();
    a.insert(key("b"), MetaValue::Int(2));
    a.insert(key("a"), MetaValue::Int(1));
    a.insert(key("c"), MetaValue::Int(3));
    let mut b: StrMap<MetaValue> = StrMap::new();
    b.insert(key("c"), MetaValue::Int(3));
    b.insert(key("a"), MetaValue::Int(0));
    b.insert(key("b"), MetaValue::Int(2));
    b.insert(key("a"), MetaValue::Int(1));
    assert_eq!(dispatch_cmd("j", &a, false), dispatch_cmd("j", &b, false));
    let mut c = b;
    c.remove(&key("b"));
    assert_eq!(dispatch_cmd("j", &c, false), strings(&["nomad", "job", "dispatch", "-meta", "a=1", "-meta", "c=3", "j"]));
}
