use deploy_server::polkajam::{
    choose_polkajam_bin,
    gen_keys_args, gen_spec_args, missing_bin_message, parse_gen_keys_output,
    polkajam_failure_message, polkajam_not_found_message, polkajam_timeout_message,
    release_bin_path, which_output_path,
};

#[test]
fn reads_peer_id_and_key_from_gen_keys() {
    let out = "Generating keys\n  Peer ID: 12D3KooWabc extra\nBandersnatch key:   ff00aa  \n";
    let keys = parse_gen_keys_output(out).ok().unwrap();
    assert_eq!(keys.peer_id, "12D3KooWabc");
    assert_eq!(keys.bandersnatch_hex, "ff00aa");
}

#[test]
fn gen_keys_output_uses_first_matching_lines() {
    let out = "Peer ID: first\r\nPeer ID: second\nBandersnatch key: k1\nBandersnatch key: k2";
    let keys = parse_gen_keys_output(out).ok().unwrap();
    assert_eq!(keys.peer_id, "first");
    assert_eq!(keys.bandersnatch_hex, "k1");
}

#[test]
fn gen_keys_output_errors() {
    let out = "Peer ID: abc\n";
    assert_eq!(
        parse_gen_keys_output(out).err().as_deref(),
        Some("Failed to parse gen-keys output: Peer ID: abc\n")
    );
    let out = "Peer ID:\nBandersnatch key: k";
    assert_eq!(parse_gen_keys_output(out).err().as_deref(), Some("Failed to parse peer ID from: Peer ID:"));
    let out = "Peer ID: p\nBandersnatch key:   ";
    assert_eq!(
        parse_gen_keys_output(out).err().as_deref(),
        Some("Failed to parse bandersnatch key from: Bandersnatch key:")
    );
    let out = "Peer ID: Peer ID: x\nBandersnatch key: k";
    assert_eq!(parse_gen_keys_output(out).err().as_deref(), Some("Failed to parse peer ID from: Peer ID: Peer ID: x"));
}

#[test]
fn polkajam_command_lines() {
    assert_eq!(gen_keys_args("/tmp/x", "val_001"), vec!["-c=/tmp/x", "gen-keys", "val_001"]);
    assert_eq!(gen_spec_args("/t/c.json", "/t/spec.json"), vec!["gen-spec", "/t/c.json", "/t/spec.json"]);
}

#[test]
fn polkajam_messages() {
    let args = vec!["gen-spec".to_string(), "a".to_string()];
    assert_eq!(
        polkajam_failure_message(&args, Some(2), "  boom \n"),
        "polkajam gen-spec a exited 2: boom"
    );
    assert_eq!(polkajam_failure_message(&args, None, ""), "polkajam gen-spec a exited -1: ");
    assert_eq!(polkajam_timeout_message(600), "polkajam timed out after 600s");
    assert_eq!(missing_bin_message("/x/pj"), "POLKAJAM_BIN points to a missing file: /x/pj");
    assert_eq!(
        polkajam_not_found_message("/app"),
        "polkajam executable not found. Set POLKAJAM_BIN, build target/release/polkajam under /app, \
         use Binary build to produce OUTPUT_DIR/cargo-build/\u{2026}/polkajam, or install polkajam on PATH."
    );
}

#[test]
fn which_output_first_line() {
    assert_eq!(which_output_path("/usr/bin/polkajam\n"), "/usr/bin/polkajam");
    assert_eq!(which_output_path("  /a \n/b\n"), "/a");
    assert_eq!(which_output_path(""), "");
    assert_eq!(release_bin_path("/app"), "/app/target/release/polkajam");
}

fn cand(entry: &str, dir: bool, file: bool) -> deploy_server::polkajam::BuildCandidate {
    deploy_server::polkajam::BuildCandidate { entry: entry.to_string(), entry_is_dir: dir, binary_is_file: file }
}

#[test]
fn polkajam_binary_lookup_order() {
    let builds = vec![cand("/out/cargo-build/a", false, true), cand("/out/cargo-build/b", true, true)];
    assert_eq!(
        choose_polkajam_bin(Some(("/x/pj".to_string(), true)), "/app", true, &builds, None),
        Ok("/x/pj".to_string())
    );
    assert_eq!(
        choose_polkajam_bin(Some(("/x/pj".to_string(), false)), "/app", true, &builds, None),
        Err("POLKAJAM_BIN points to a missing file: /x/pj".to_string())
    );
    assert_eq!(
        choose_polkajam_bin(None, "/app", true, &builds, None),
        Ok("/app/target/release/polkajam".to_string())
    );
    assert_eq!(
        choose_polkajam_bin(None, "/app", false, &builds, Some("/usr/bin/polkajam\n".to_string())),
        Ok("/out/cargo-build/b/polkajam".to_string())
    );
    assert_eq!(
        choose_polkajam_bin(None, "/app", false, &vec![], Some(" /usr/bin/polkajam\n".to_string())),
        Ok("/usr/bin/polkajam".to_string())
    );
    assert_eq!(
        choose_polkajam_bin(None, "/app", false, &vec![], Some("\n".to_string())),
        Err(polkajam_not_found_message("/app"))
    );
    assert_eq!(choose_polkajam_bin(None, "/app", false, &vec![], None), Err(polkajam_not_found_message("/app")));
}
