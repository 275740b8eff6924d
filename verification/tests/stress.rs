use deploy_server::hcl::{count_variant_text, parse_hcl, MetaValue, VariantError};
use deploy_server::nomad::CmdResult;
use deploy_server::paths::{StressPaths, TARGET_VALIDATORS};
use deploy_server::stress::{
    dispatch_group_fits, dispatch_plan, status_job, StatusEntry, missing_spec_message, not_found_message, options_plan, plan_run_target,
    stress_dispatch_args, stress_path, stress_run_target, variant_error_message, RunTargetParams,
    StepRecord, StressKind,
};
use deploy_server::strmap::StrMap;

const JOB: &str = r#"job "stress-test-1" {
  type = "batch"
  parameterized {
    meta_required = ["role"]
    meta_optional = ["nomad_group", "validator_base", "group_size", "jam_url"]
  }
  meta {
    jam_url = "http://example/chains"
  }
  group "validators" {
    count = 82
  }
}
"#;

fn key(s: &str) -> Vec<char> {
    s.chars().collect()
}

fn meta(pairs: &[(&str, &str)]) -> StrMap<MetaValue> {
    let mut m: StrMap<MetaValue> = StrMap::new();
    for (k, v) in pairs {
        m.insert(key(k), MetaValue::Str(v.to_string()));
    }
    m
}

fn result(code: i32) -> CmdResult {
    CmdResult { cmd: "nomad".to_string(), returncode: code, stdout: String::new(), stderr: String::new() }
}

#[test]
fn stress_kind_names_round_trip() {
    assert_eq!(StressKind::parse("validators"), Some(StressKind::Validators));
    assert_eq!(StressKind::parse("builders"), Some(StressKind::Builders));
    assert_eq!(StressKind::parse("Validators"), None);
    assert_eq!(StressKind::parse(""), None);
    for k in [StressKind::Validators, StressKind::Builders] {
        assert_eq!(StressKind::parse(k.as_str()), Some(k));
    }
}

#[test]
fn stress_paths_live_under_stress_net() {
    let p = StressPaths::new("/srv/app".to_string());
    assert_eq!(p.validators, "/srv/app/stress-net/validators.hcl");
    assert_eq!(p.builders, "/srv/app/stress-net/builders.hcl");
    assert_eq!(p.remainder, "/srv/app/stress-net/.validators-remainder.hcl");
    let q = StressPaths::new("/srv/app/".to_string());
    assert_eq!(q.validators, "/srv/app/stress-net/validators.hcl");
    let r = StressPaths::new(String::new());
    assert_eq!(r.builders, "stress-net/builders.hcl");
    assert_eq!(stress_path(&p, StressKind::Builders), p.builders);
    assert_eq!(stress_path(&p, StressKind::Validators), p.validators);
}

#[test]
fn dispatch_plan_for_default_target() {
    let plan = dispatch_plan(TARGET_VALIDATORS, 82).unwrap();
    assert_eq!(plan.full_dispatches, 12);
    assert_eq!(plan.remainder_count, 39);
    assert_eq!(plan.total_dispatches, 13);
    assert_eq!(plan.total_validators, 1023);
    assert!(dispatch_plan(1023, 0).is_none());
    let even = dispatch_plan(164, 82).unwrap();
    assert_eq!(even.remainder_count, 0);
    assert_eq!(even.total_dispatches, 2);
}

#[test]
fn dispatch_plan_groups_add_up_to_the_target() {
    for target in [0u32, 1, 6, 81, 82, 83, 1023, 4096] {
        for per in [1u32, 5, 82, 1000] {
            let p = dispatch_plan(target, per).unwrap();
            assert_eq!(p.full_dispatches * per + p.remainder_count, target);
            assert!(p.remainder_count < per);
            assert_eq!(p.total_validators, target);
        }
    }
}

#[test]
fn options_plan_needs_a_group_count() {
    assert!(options_plan(None).is_none());
    assert!(options_plan(Some(0)).is_none());
    let p = options_plan(Some(82)).unwrap();
    assert_eq!(p.target, 1023);
    assert_eq!(p.count_per_dispatch, 82);
}

fn strings(v: &[&str]) -> Vec<String> {
    v.iter().map(|s| s.to_string()).collect()
}

#[test]
fn dispatch_adds_group_base_and_size() {
    let parsed = parse_hcl(JOB);
    let m = meta(&[("role", "validators"), ("nomad_group", "3"), ("secret", "x")]);
    let args = stress_dispatch_args(&parsed, &m, true);
    assert_eq!(
        args,
        strings(&[
            "nomad", "job", "dispatch", "-detach",
            "-meta", "group_size=82",
            "-meta", "nomad_group=3",
            "-meta", "role=validators",
            "-meta", "validator_base=164",
            "stress-test-1",
        ])
    );
}

#[test]
fn dispatch_keeps_an_explicit_base() {
    let parsed = parse_hcl(JOB);
    let m = meta(&[("nomad_group", "2"), ("validator_base", "7"), ("role", "")]);
    let args = stress_dispatch_args(&parsed, &m, false);
    assert_eq!(
        args,
        strings(&[
            "nomad", "job", "dispatch",
            "-meta", "group_size=82",
            "-meta", "nomad_group=2",
            "-meta", "validator_base=7",
            "stress-test-1",
        ])
    );
}

#[test]
fn dispatch_without_a_group_adds_nothing() {
    let parsed = parse_hcl("job \"other\" {\n}\n");
    let m = meta(&[("nomad_group", "x")]);
    let args = stress_dispatch_args(&parsed, &m, true);
    assert_eq!(args, strings(&["nomad", "job", "dispatch", "-detach", "other"]));
}

#[test]
fn run_target_plans_groups_and_remainder() {
    let paths = StressPaths::new("/app".to_string());
    let m = meta(&[("role", "validators"), ("nomad_group", "9")]);
    let params = RunTargetParams { target: 200, meta: &m, detach: true, dry_run: true };
    let plan = plan_run_target(&paths, JOB, &params).unwrap();
    assert_eq!(plan.per, 82);
    assert_eq!(plan.full, 2);
    assert_eq!(plan.remainder, 36);
    assert_eq!(plan.main_job, "stress-test-1");
    assert_eq!(plan.remainder_job, "stress-test-1-remainder");
    let names: Vec<&str> = plan.steps.iter().map(|s| s.step.as_str()).collect();
    assert_eq!(
        names,
        vec!["register-main", "register-remainder", "dispatch-main-1", "dispatch-main-2", "dispatch-remainder"]
    );
    assert_eq!(plan.steps[0].args, strings(&["nomad", "job", "run", "/app/stress-net/validators.hcl"]));
    assert_eq!(
        plan.steps[1].args,
        strings(&["nomad", "job", "run", "/app/stress-net/.validators-remainder.hcl"])
    );
    assert_eq!(
        plan.steps[3].args,
        strings(&[
            "nomad", "job", "dispatch", "-detach",
            "-meta", "group_size=82",
            "-meta", "nomad_group=2",
            "-meta", "role=validators",
            "-meta", "validator_base=82",
            "stress-test-1",
        ])
    );
    assert_eq!(
        plan.steps[4].args,
        strings(&[
            "nomad", "job", "dispatch", "-detach",
            "-meta", "group_size=82",
            "-meta", "nomad_group=3",
            "-meta", "role=validators",
            "-meta", "validator_base=164",
            "stress-test-1-remainder",
        ])
    );
    let text = match &plan.remainder_file {
        Some(Ok(t)) => t.clone(),
        _ => panic!("remainder file expected"),
    };
    assert!(text.contains("job \"stress-test-1-remainder\""));
    assert!(text.contains("count = 36"));
}

#[test]
fn run_target_without_remainder_skips_it() {
    let paths = StressPaths::new("/app".to_string());
    let m = meta(&[]);
    let params = RunTargetParams { target: 164, meta: &m, detach: false, dry_run: false };
    let plan = plan_run_target(&paths, JOB, &params).unwrap();
    assert_eq!(plan.steps.len(), 3);
    assert!(plan.remainder_file.is_none());
}

#[test]
fn run_target_needs_a_group_count() {
    let paths = StressPaths::new("/app".to_string());
    let m = meta(&[]);
    let params = RunTargetParams { target: 10, meta: &m, detach: true, dry_run: true };
    let err = plan_run_target(&paths, "job \"x\" {}\n", &params).err().unwrap();
    assert_eq!(err, "could not determine group count in validators.hcl");
    let zero = "job \"x\" {\n  group \"g\" {\n    count = 0\n  }\n}\n";
    let err = plan_run_target(&paths, zero, &params).err().unwrap();
    assert_eq!(err, "could not determine group count in validators.hcl");
}

#[test]
fn dry_run_summary_lists_commands() {
    let paths = StressPaths::new("/app".to_string());
    let m = meta(&[]);
    let params = RunTargetParams { target: 90, meta: &m, detach: true, dry_run: true };
    let plan = plan_run_target(&paths, JOB, &params).unwrap();
    let n = plan.steps.len();
    let result = stress_run_target(plan, Vec::new());
    assert!(!result.failed);
    assert_eq!(result.summary.steps.len(), n);
    assert_eq!(result.summary.total_validators, 90);
    assert_eq!(result.summary.remainder_job.as_deref(), Some("stress-test-1-remainder"));
    match &result.summary.steps[0] {
        StepRecord::DryRun { step, cmd } => {
            assert_eq!(step, "register-main");
            assert_eq!(cmd, "nomad job run /app/stress-net/validators.hcl");
        }
        _ => panic!("dry-run record expected"),
    }
}

#[test]
fn run_summary_fails_when_a_command_fails() {
    let paths = StressPaths::new("/app".to_string());
    let m = meta(&[]);
    let params = RunTargetParams { target: 164, meta: &m, detach: true, dry_run: false };
    let plan = plan_run_target(&paths, JOB, &params).unwrap();
    let ok = stress_run_target(plan, vec![result(0), result(0), result(0)]);
    assert!(!ok.failed);
    assert_eq!(ok.summary.remainder_job, None);
    let plan = plan_run_target(&paths, JOB, &params).unwrap();
    let bad = stress_run_target(plan, vec![result(0), result(2), result(0)]);
    assert!(bad.failed);
    match &bad.summary.steps[1] {
        StepRecord::Ran { step, result } => {
            assert_eq!(step, "dispatch-main-1");
            assert_eq!(result.returncode, 2);
        }
        _ => panic!("ran record expected"),
    }
}

#[test]
fn count_variant_renames_job_and_count() {
    let out = count_variant_text(JOB, 5, "copy").ok().unwrap();
    assert!(out.starts_with("job \"copy\" {"));
    assert!(out.contains("    count = 5\n"));
    assert!(matches!(count_variant_text("group \"g\" {}", 5, "x"), Err(VariantError::NoJobStanza)));
    assert!(matches!(count_variant_text("job \"a\" {}", 5, "x"), Err(VariantError::NoGroupCount)));
}

#[test]
fn stress_messages() {
    assert_eq!(not_found_message("/app/stress-net/validators.hcl"), "validators.hcl not found");
    assert_eq!(not_found_message("/"), "unknown not found");
    assert_eq!(missing_spec_message(StressKind::Builders), "job spec missing for kind=builders");
    assert_eq!(
        variant_error_message(&VariantError::NoGroupCount, "/a/v.hcl"),
        "could not find group count in /a/v.hcl"
    );
    assert_eq!(
        variant_error_message(&VariantError::NoJobStanza, "/a/v.hcl"),
        "could not find job stanza in /a/v.hcl"
    );
}

#[test]
fn group_arithmetic_check() {
    let parsed = parse_hcl(JOB);
    assert!(dispatch_group_fits(&parsed, &meta(&[("nomad_group", "3")])));
    assert!(!dispatch_group_fits(&parsed, &meta(&[("nomad_group", "0")])));
    assert!(dispatch_group_fits(&parsed, &meta(&[("nomad_group", "52377650")])));
    assert!(!dispatch_group_fits(&parsed, &meta(&[("nomad_group", "52377651")])));
    assert!(dispatch_group_fits(&parsed, &meta(&[("nomad_group", "abc")])));
}

#[test]
fn remainder_file_declares_the_remainder() {
    let paths = StressPaths::new("/app".to_string());
    let m = meta(&[]);
    for target in [1u32, 81, 83, 200, 1023] {
        let params = RunTargetParams { target, meta: &m, detach: true, dry_run: true };
        let plan = plan_run_target(&paths, JOB, &params).unwrap();
        if let Some(Ok(text)) = &plan.remainder_file {
            let reparsed = parse_hcl(text);
            assert_eq!(reparsed.count, Some(plan.remainder));
            assert_eq!(reparsed.job_name.as_deref(), Some("stress-test-1-remainder"));
        } else {
            assert_eq!(plan.remainder, 0);
        }
    }
}

#[test]
fn status_job_per_file() {
    assert!(matches!(status_job(None), Err(StatusEntry::Missing)));
    match status_job(Some(Err("denied".to_string()))) {
        Err(StatusEntry::ReadError(m)) => assert_eq!(m, "denied"),
        _ => panic!("read error expected"),
    }
    assert!(matches!(status_job(Some(Ok("group \"g\" {}".to_string()))), Err(StatusEntry::NoJobStanza)));
    assert_eq!(status_job(Some(Ok(JOB.to_string()))).ok().as_deref(), Some("stress-test-1"));
}

#[test]
fn run_target_ignores_the_requests_own_group() {
    let paths = StressPaths::new("/app".to_string());
    let with_group = meta(&[("role", "validators"), ("nomad_group", "9")]);
    let without = meta(&[("role", "validators")]);
    let a = plan_run_target(&paths, JOB, &RunTargetParams { target: 300, meta: &with_group, detach: false, dry_run: true })
        .unwrap();
    let b = plan_run_target(&paths, JOB, &RunTargetParams { target: 300, meta: &without, detach: false, dry_run: true })
        .unwrap();
    assert_eq!(a.steps.len(), b.steps.len());
    for (x, y) in a.steps.iter().zip(b.steps.iter()) {
        assert_eq!(x.step, y.step);
        assert_eq!(x.args, y.args);
    }
    let mains = a.steps.iter().filter(|s| s.step.starts_with("dispatch-main-")).count();
    assert_eq!(mains, 300 / 82);
    assert_eq!(a.steps[2].step, "dispatch-main-1");
    assert_eq!(a.steps.last().unwrap().step, "dispatch-remainder");
}

#[test]
fn renamed_job_file_parses_with_new_name_and_count() {
    let out = count_variant_text(JOB, 7, "stress-test-1-remainder").ok().unwrap();
    let parsed = parse_hcl(&out);
    assert_eq!(parsed.job_name.as_deref(), Some("stress-test-1-remainder"));
    assert_eq!(parsed.count, Some(7));
    let indented = "\n  job   \"a\" {\n  count = 1\n}\n";
    let out = count_variant_text(indented, 12, "b").ok().unwrap();
    assert_eq!(out, "\n  job   \"b\" {\n  count = 12\n}\n");
    assert_eq!(parse_hcl(&out).job_name.as_deref(), Some("b"));
}
