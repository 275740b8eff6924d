use deploy_server::nodes::{
    node_detail_path, node_metadata_path, nomad_api_error, nomad_api_url,
    collect_hosts, empty_hosts_error, looks_like_ipv4, merge_node_detail, node_client_ip_with_prefix,
    node_is_available, node_role, normalize_meta_role, parse_dynamic_meta_map, parse_nomad_host,
    select_hosts, urlencoding_encode, NodeField, NomadHost, NomadNode, ScanEntry, ScanStats,
    CHAIN_NOMAD_META_ROLE, DEFAULT_HOST_IP_PREFIX,
};
use deploy_server::strmap::StrMap;

fn key(s: &str) -> Vec<char> {
    s.chars().collect()
}

fn obj(members: &[(&str, Option<&str>)]) -> NodeField {
    let mut m: StrMap<Option<String>> = StrMap::new();
    for (k, v) in members {
        m.insert(key(k), v.map(|s| s.to_string()));
    }
    NodeField::Obj(m)
}

fn node(fields: Vec<(&str, NodeField)>) -> NomadNode {
    let mut m: StrMap<NodeField> = StrMap::new();
    for (k, f) in fields {
        m.insert(key(k), f);
    }
    NomadNode { fields: m, is_object: true }
}

fn text(s: &str) -> NodeField {
    NodeField::Str(s.to_string())
}

fn host(name: &str, ip: &str) -> NomadHost {
    NomadHost {
        id: format!("id-{name}"),
        name: name.to_string(),
        status: "ready".to_string(),
        datacenter: "dc1".to_string(),
        role: "validators".to_string(),
        client_ip: ip.to_string(),
    }
}

#[test]
fn normalizes_validator_alias_to_validators() {
    assert_eq!(normalize_meta_role("validator"), "validators");
    assert_eq!(normalize_meta_role("validators"), "validators");
    assert_eq!(normalize_meta_role(""), CHAIN_NOMAD_META_ROLE);
}

#[test]
fn reads_role_from_dynamic_meta_only() {
    let node = node(vec![
        ("Status", text("ready")),
        ("Meta", obj(&[("role", Some("builders")), ("client_ip", Some("10.0.0.1"))])),
        ("DynamicMeta", obj(&[("role", Some("validators")), ("client_ip", Some("192.168.20.5"))])),
    ]);
    assert_eq!(node_role(&node).as_deref(), Some("validators"));
    assert_eq!(
        node_client_ip_with_prefix(&node, "192.168.20.").as_deref(),
        Some("192.168.20.5")
    );
    assert!(parse_nomad_host(&node, "validators", DEFAULT_HOST_IP_PREFIX).is_some());
}

#[test]
fn ignores_static_meta_for_role() {
    let node = node(vec![
        ("Status", text("ready")),
        ("Meta", obj(&[("role", Some("validators")), ("client_ip", Some("192.168.20.5"))])),
    ]);
    assert_eq!(node_role(&node), None);
    assert!(parse_nomad_host(&node, "validators", DEFAULT_HOST_IP_PREFIX).is_none());
}

#[test]
fn parses_dynamic_metadata_response() {
    let resp = node(vec![
        ("Meta", obj(&[("role", Some("validators")), ("foo", Some("bar"))])),
        (
            "Dynamic",
            obj(&[("role", Some("validators")), ("client_ip", Some("192.168.20.9")), ("unset", None)]),
        ),
    ]);
    let parsed = parse_dynamic_meta_map(&resp);
    assert_eq!(
        parsed.get(&key("role")).and_then(|v| v.as_deref()),
        Some("validators")
    );
    assert_eq!(
        parsed.get(&key("client_ip")).and_then(|v| v.as_deref()),
        Some("192.168.20.9")
    );
    assert!(!parsed.contains_key(&key("unset")));
}

#[test]
fn prefers_prefix_from_network_addresses() {
    let node = node(vec![
        ("Status", text("ready")),
        ("DynamicMeta", obj(&[("role", Some("validators"))])),
        (
            "Attributes",
            obj(&[
                ("unique.network.ip-address", Some("10.0.0.5")),
                ("unique.network.ip-addresses", Some("10.0.0.5,192.168.20.42")),
            ]),
        ),
    ]);
    assert_eq!(
        node_client_ip_with_prefix(&node, "192.168.20.").as_deref(),
        Some("192.168.20.42")
    );
}

#[test]
fn normalize_meta_role_trims_and_keeps_other_roles() {
    assert_eq!(normalize_meta_role("  Validator "), "validators");
    assert_eq!(normalize_meta_role(" builders "), "builders");
    assert_eq!(normalize_meta_role("   "), "validators");
    // normalizing twice changes nothing
    let once = normalize_meta_role(" VALIDATOR ");
    assert_eq!(normalize_meta_role(&once), once);
}

#[test]
fn draining_or_ineligible_nodes_are_unavailable() {
    let ready = node(vec![("Status", text("ready"))]);
    assert!(node_is_available(&ready));
    let down = node(vec![("Status", text("down"))]);
    assert!(!node_is_available(&down));
    let draining = node(vec![("Status", text("ready")), ("Drain", NodeField::Bool(true))]);
    assert!(!node_is_available(&draining));
    let ineligible = node(vec![
        ("Status", text("ready")),
        ("SchedulingEligibility", text("ineligible")),
    ]);
    assert!(!node_is_available(&ineligible));
}

#[test]
fn client_ip_from_dynamic_meta_wins_over_attributes() {
    let node = node(vec![
        ("Status", text("ready")),
        ("DynamicMeta", obj(&[("role", Some("validators")), ("client_ip", Some("10.1.1.1"))])),
        ("Attributes", obj(&[("unique.network.ip-address", Some("192.168.20.7"))])),
    ]);
    assert_eq!(node_client_ip_with_prefix(&node, "192.168.20.").as_deref(), Some("10.1.1.1"));
}

#[test]
fn detail_attributes_are_merged_into_a_stub() {
    let mut stub = node(vec![("Status", text("ready")), ("DynamicMeta", obj(&[("role", Some("validators"))]))]);
    assert_eq!(node_client_ip_with_prefix(&stub, "192.168.20."), None);
    let detail = node(vec![("Attributes", obj(&[("unique.network.ip-address", Some("192.168.20.11"))]))]);
    merge_node_detail(&mut stub, &detail);
    assert_eq!(
        node_client_ip_with_prefix(&stub, "192.168.20.").as_deref(),
        Some("192.168.20.11")
    );
}

#[test]
fn looks_like_ipv4_requires_four_octets() {
    assert!(looks_like_ipv4(&key("192.168.20.1")));
    assert!(!looks_like_ipv4(&key("192.168.20")));
    assert!(!looks_like_ipv4(&key("192.168.20.256")));
    assert!(!looks_like_ipv4(&key("a.b.c.d")));
}

#[test]
fn urlencoding_escapes_reserved_characters() {
    assert_eq!(urlencoding_encode("abc-_.~"), "abc-_.~");
    assert_eq!(urlencoding_encode("a b/c"), "a%20b%2Fc");
    assert_eq!(urlencoding_encode("node:1"), "node%3A1");
}

#[test]
fn select_hosts_keeps_one_host_per_ip_in_ip_order() {
    let hosts = vec![
        host("zeta", "192.168.20.9"),
        host("beta", "192.168.20.10"),
        host("alpha", "192.168.20.9"),
    ];
    let chosen = select_hosts(&hosts);
    let ips: Vec<&str> = chosen.iter().map(|h| h.client_ip.as_str()).collect();
    assert_eq!(ips, vec!["192.168.20.10", "192.168.20.9"]);
    assert_eq!(chosen[1].name, "alpha");
}

#[test]
fn collect_hosts_reports_what_the_scan_saw() {
    let entries = vec![
        ScanEntry::Unavailable,
        ScanEntry::Candidate(node(vec![
            ("Status", text("ready")),
            ("DynamicMeta", obj(&[("role", Some("builders")), ("client_ip", Some("192.168.20.3"))])),
        ])),
    ];
    let err = collect_hosts(&entries, "validators", "192.168.20.").err().unwrap();
    let stats = ScanStats { total: 2, ready: 1, matched: 0, with_ip: 1 };
    assert_eq!(err, empty_hosts_error("validators", &stats, "192.168.20."));
    assert!(err.starts_with("no available Nomad hosts with dynamic meta role=validators"));
    assert!(err.contains("Scanned 2 node(s): 1 ready, 0 with dynamic meta role=validators, 1 with a host IP."));
}

#[test]
fn collect_hosts_returns_matching_hosts() {
    let entries = vec![ScanEntry::Candidate(node(vec![
        ("ID", text("n1")),
        ("Name", text("node-1")),
        ("Status", text("ready")),
        ("DynamicMeta", obj(&[("role", Some("validators")), ("client_ip", Some("192.168.20.3"))])),
    ]))];
    let hosts = collect_hosts(&entries, "validators", "192.168.20.").unwrap();
    assert_eq!(hosts.len(), 1);
    assert_eq!(hosts[0].client_ip, "192.168.20.3");
    assert_eq!(hosts[0].role, "validators");
}

#[test]
fn nomad_api_urls_and_errors() {
    assert_eq!(nomad_api_url("http://127.0.0.1:4646//", "/v1/nodes"), "http://127.0.0.1:4646/v1/nodes");
    assert_eq!(nomad_api_url("http://h:1", "/v1/nodes"), "http://h:1/v1/nodes");
    assert_eq!(node_detail_path("abc"), "/v1/node/abc");
    assert_eq!(node_metadata_path("a b"), "/v1/client/metadata?node_id=a%20b");
    assert_eq!(
        nomad_api_error("404 Not Found", "/v1/nodes", "nope"),
        "Nomad API error 404 Not Found for /v1/nodes: nope"
    );
}
