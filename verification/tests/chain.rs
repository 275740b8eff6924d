use deploy_server::chain::{
    chain_config, chainspec_text, host_request_check, ChainConfig, GenesisValidator, TestnetLayout, ValidatorSlot,
    chain_files, config_file_name, int_to_ipv4, ipv4_to_int, key_entries,
    key_entry, layout_arithmetic_fits, sort_chain_names, testnet_layout_on_hosts, testnet_layout, validator_count, GenTestnetParams,
};
use deploy_server::polkajam::GenKeysOutput;

fn params(chain_id: &str, start: &str, end: &str) -> GenTestnetParams {
    GenTestnetParams {
        chain_id: chain_id.to_string(),
        ip_start: start.to_string(),
        ip_end: end.to_string(),
        ..GenTestnetParams::default()
    }
}

#[test]
fn default_params_match_the_documented_defaults() {
    let p = GenTestnetParams::default();
    assert_eq!(p.chain_id, "testnet");
    assert_eq!(p.num_validators, None);
    assert_eq!(p.base_port, 40000);
    assert_eq!(p.ip_start, "192.168.20.2");
    assert_eq!(p.ip_end, "192.168.20.83");
    assert!(!p.tiny);
}

#[test]
fn ipv4_parses_dotted_quads() {
    assert_eq!(ipv4_to_int("192.168.20.2").ok(), Some(0xC0A81402));
    assert_eq!(ipv4_to_int("0.0.0.0").ok(), Some(0));
    assert_eq!(ipv4_to_int("255.255.255.255").ok(), Some(u32::MAX));
    assert_eq!(ipv4_to_int("+1.2.3.4").ok(), Some(0x01020304));
    assert_eq!(ipv4_to_int("001.2.3.4").ok(), Some(0x01020304));
    for bad in ["1.2.3", "1.2.3.4.5", "256.1.1.1", "1.2.3.x", "", "1..2.3", "65536.0.0.1"] {
        assert_eq!(ipv4_to_int(bad).err(), Some(format!("Invalid IPv4 address: {bad}")));
    }
}

#[test]
fn ipv4_rendering_round_trips() {
    for n in [0u32, 1, 255, 256, 0xC0A81402, 0x7F000001, u32::MAX] {
        let text = int_to_ipv4(n);
        assert_eq!(ipv4_to_int(&text).ok(), Some(n));
    }
    assert_eq!(int_to_ipv4(0xC0A81453), "192.168.20.83");
}

#[test]
fn validator_count_bounds() {
    let mut p = GenTestnetParams::default();
    assert_eq!(validator_count(&p).ok(), Some(1023));
    p.tiny = true;
    p.num_validators = Some(50);
    assert_eq!(validator_count(&p).ok(), Some(6));
    p.tiny = false;
    assert_eq!(validator_count(&p).ok(), Some(50));
    p.num_validators = Some(0);
    assert_eq!(validator_count(&p).err().as_deref(), Some("numValidators must be between 1 and 10000"));
    p.num_validators = Some(10001);
    assert!(validator_count(&p).is_err());
    p.num_validators = Some(10000);
    assert_eq!(validator_count(&p).ok(), Some(10000));
}

#[test]
fn layout_cycles_addresses_and_counts_ports() {
    let mut p = params(" mynet ", "10.0.0.1", "10.0.0.2");
    p.tiny = true;
    let layout = testnet_layout(&p).ok().unwrap();
    assert_eq!(layout.chain_id, "mynet");
    assert_eq!(layout.slots.len(), 6);
    let names: Vec<&str> = layout.slots.iter().map(|s| s.file_name.as_str()).collect();
    assert_eq!(names, vec!["val_000", "val_001", "val_002", "val_003", "val_004", "val_005"]);
    let addrs: Vec<&str> = layout.slots.iter().map(|s| s.net_addr.as_str()).collect();
    assert_eq!(
        addrs,
        vec![
            "10.0.0.1:40000",
            "10.0.0.2:40001",
            "10.0.0.1:40002",
            "10.0.0.2:40003",
            "10.0.0.1:40004",
            "10.0.0.2:40005"
        ]
    );
}

#[test]
fn layout_pads_file_names_to_three_digits() {
    let mut p = params("big", "192.168.20.2", "192.168.20.83");
    p.num_validators = Some(1023);
    let layout = testnet_layout(&p).ok().unwrap();
    assert_eq!(layout.slots[9].file_name, "val_009");
    assert_eq!(layout.slots[99].file_name, "val_099");
    assert_eq!(layout.slots[1022].file_name, "val_1022");
    assert_eq!(layout.slots[82].net_addr, "192.168.20.2:40082");
}

#[test]
fn layout_refuses_bad_requests() {
    let p = params("  ", "10.0.0.1", "10.0.0.2");
    assert_eq!(testnet_layout(&p).err().as_deref(), Some("chainId must not be empty"));
    let mut p = params("x", "10.0.0.1", "10.0.0.2");
    p.num_validators = Some(0);
    assert_eq!(testnet_layout(&p).err().as_deref(), Some("numValidators must be between 1 and 10000"));
    let p = params("x", "10.0.0", "10.0.0.2");
    assert_eq!(testnet_layout(&p).err().as_deref(), Some("Invalid IPv4 address: 10.0.0"));
    let p = params("x", "10.0.0.1", "nope");
    assert_eq!(testnet_layout(&p).err().as_deref(), Some("Invalid IPv4 address: nope"));
    let p = params("x", "10.0.0.5", "10.0.0.2");
    assert_eq!(testnet_layout(&p).err().as_deref(), Some("IP range invalid: 10.0.0.5 > 10.0.0.2"));
}

#[test]
fn key_seeds_are_standard_base64() {
    let e = key_entry("val_000.seed", &b"hello world~".to_vec());
    assert_eq!(e.file_name, "val_000.seed");
    assert_eq!(e.seed_base64, "aGVsbG8gd29ybGR+");
    let entries = key_entries(&vec![
        ("a".to_string(), vec![]),
        ("b".to_string(), vec![0xff]),
        ("c".to_string(), vec![0xfb, 0xff]),
        ("d".to_string(), b"Man".to_vec()),
    ]);
    let got: Vec<&str> = entries.iter().map(|e| e.seed_base64.as_str()).collect();
    assert_eq!(got, vec!["", "/w==", "+/8=", "TWFu"]);
}

#[test]
fn chain_files_are_named_after_the_chain() {
    let f = chain_files("/out", "stress-test-2");
    assert_eq!(f.chain_dir, "/out/stress-test-2");
    assert_eq!(f.chainspec, "/out/stress-test-2/stress-test-2_config.json");
    assert_eq!(f.zip, "/out/stress-test-2/stress-test-2-config-and-keys.zip");
    assert_eq!(f.spec, "/out/stress-test-2/spec.json");
    assert_eq!(f.keys_dir, "/out/stress-test-2/keys");
    assert_eq!(f.polkajam, "/out/stress-test-2/polkajam");
    assert_eq!(config_file_name("x"), "x_config.json");
}

#[test]
fn chain_names_are_sorted() {
    let sorted = sort_chain_names(vec![
        "zeta".to_string(),
        "alpha".to_string(),
        "Beta".to_string(),
        "alpha".to_string(),
        "al".to_string(),
    ]);
    assert_eq!(sorted, vec!["Beta", "al", "alpha", "alpha", "zeta"]);
}

#[test]
fn layout_arithmetic_check() {
    let p = params("x", "0.0.0.0", "255.255.255.255");
    assert!(!layout_arithmetic_fits(&p));
    let p = params("", "0.0.0.0", "255.255.255.255");
    assert!(layout_arithmetic_fits(&p));
    let mut p = params("x", "10.0.0.1", "10.0.0.2");
    p.base_port = u32::MAX - 1022;
    assert!(layout_arithmetic_fits(&p));
    p.base_port = u32::MAX - 1021;
    assert!(!layout_arithmetic_fits(&p));
}

#[test]
fn layout_on_nomad_hosts_cycles_hosts() {
    let mut p = params(" net ", "bad", "bad");
    p.num_validators = Some(3);
    p.use_nomad_hosts = true;
    let hosts = vec!["192.168.20.5".to_string(), "192.168.20.6".to_string()];
    let layout = testnet_layout_on_hosts(&p, &hosts).ok().unwrap();
    assert_eq!(layout.chain_id, "net");
    let addrs: Vec<&str> = layout.slots.iter().map(|s| s.net_addr.as_str()).collect();
    assert_eq!(addrs, vec!["192.168.20.5:40000", "192.168.20.6:40001", "192.168.20.5:40002"]);
    p.chain_id = " ".to_string();
    assert_eq!(testnet_layout_on_hosts(&p, &hosts).err().as_deref(), Some("chainId must not be empty"));
    assert!(!GenTestnetParams::default().use_nomad_hosts);
    assert_eq!(GenTestnetParams::default().nomad_meta_role, "validators");
}

fn keys(peer: &str, band: &str) -> GenKeysOutput {
    GenKeysOutput { peer_id: peer.to_string(), bandersnatch_hex: band.to_string() }
}

#[test]
fn chain_config_pairs_keys_with_slots_in_order() {
    let layout = TestnetLayout {
        chain_id: "dev".to_string(),
        slots: vec![
            ValidatorSlot { file_name: "val_000".to_string(), net_addr: "10.0.0.1:40000".to_string() },
            ValidatorSlot { file_name: "val_001".to_string(), net_addr: "10.0.0.2:40001".to_string() },
        ],
    };
    let config = chain_config(&layout, &vec![keys("p0", "b0"), keys("p1", "b1")]);
    assert_eq!(config.id, "dev");
    assert_eq!(config.genesis_validators.len(), 2);
    assert_eq!(config.genesis_validators[0].peer_id, "p0");
    assert_eq!(config.genesis_validators[0].bandersnatch, "b0");
    assert_eq!(config.genesis_validators[0].net_addr, "10.0.0.1:40000");
    assert_eq!(config.genesis_validators[1].peer_id, "p1");
    assert_eq!(config.genesis_validators[1].bandersnatch, "b1");
    assert_eq!(config.genesis_validators[1].net_addr, "10.0.0.2:40001");
}

#[test]
fn chainspec_text_is_pretty_json_with_sorted_keys() {
    let config = ChainConfig {
        id: "dev".to_string(),
        genesis_validators: vec![GenesisValidator {
            peer_id: "pp".to_string(),
            bandersnatch: "bb".to_string(),
            net_addr: "127.0.0.1:40000".to_string(),
        }],
    };
    let expected = "{\n  \"genesis_validators\": [\n    {\n      \"bandersnatch\": \"bb\",\n      \"net_addr\": \"127.0.0.1:40000\",\n      \"peer_id\": \"pp\"\n    }\n  ],\n  \"id\": \"dev\"\n}\n";
    assert_eq!(chainspec_text(&config), expected);
}

#[test]
fn chainspec_text_without_validators_and_with_quotes() {
    let config = ChainConfig { id: "a\"b".to_string(), genesis_validators: vec![] };
    assert_eq!(chainspec_text(&config), "{\n  \"genesis_validators\": [],\n  \"id\": \"a\\\"b\"\n}\n");
}

#[test]
fn host_request_check_reports_blank_ids_and_bad_counts() {
    let mut p = params("  ", "10.0.0.1", "10.0.0.2");
    p.use_nomad_hosts = true;
    assert_eq!(host_request_check(&p).err().as_deref(), Some("chainId must not be empty"));
    p.chain_id = "net".to_string();
    assert!(host_request_check(&p).is_ok());
    p.num_validators = Some(0);
    assert_eq!(host_request_check(&p).err().as_deref(), Some("numValidators must be between 1 and 10000"));
}
