use deploy_server::hcl::MetaValue;
use deploy_server::requests::{
    chainspec_missing_message, chainspec_path, default_base_port, default_chain_id,
    default_ip_end, default_ip_start, default_true, default_validators_kind, parse_meta_pairs,
    unknown_kind_message,
};

fn key(s: &str) -> Vec<char> {
    s.chars().collect()
}

fn str_value(v: Option<&MetaValue>) -> Option<String> {
    match v {
        Some(MetaValue::Str(s)) => Some(s.clone()),
        _ => None,
    }
}

#[test]
fn meta_pairs_split_at_the_first_equals() {
    let pairs = vec!["role=validators".to_string(), "url=a=b".to_string(), "empty=".to_string()];
    let m = parse_meta_pairs(&pairs).ok().unwrap();
    assert_eq!(m.len(), 3);
    assert_eq!(str_value(m.get(&key("role"))).as_deref(), Some("validators"));
    assert_eq!(str_value(m.get(&key("url"))).as_deref(), Some("a=b"));
    assert_eq!(str_value(m.get(&key("empty"))).as_deref(), Some(""));
}

#[test]
fn later_meta_pairs_replace_earlier_ones() {
    let pairs = vec!["k=1".to_string(), "k=2".to_string()];
    let m = parse_meta_pairs(&pairs).ok().unwrap();
    assert_eq!(m.len(), 1);
    assert_eq!(str_value(m.get(&key("k"))).as_deref(), Some("2"));
}

#[test]
fn meta_pairs_errors() {
    let pairs = vec!["ok=1".to_string(), "novalue".to_string(), "=x".to_string()];
    assert_eq!(
        parse_meta_pairs(&pairs).err().as_deref(),
        Some("invalid meta (expected KEY=VALUE): novalue")
    );
    let pairs = vec!["=x".to_string(), "novalue".to_string()];
    assert_eq!(parse_meta_pairs(&pairs).err().as_deref(), Some("invalid meta key in: =x"));
    assert_eq!(parse_meta_pairs(&vec![]).ok().map(|m| m.len()), Some(0));
}

#[test]
fn request_defaults() {
    assert_eq!(default_chain_id(), "testnet");
    assert_eq!(default_base_port(), 40000);
    assert_eq!(default_ip_start(), "192.168.20.2");
    assert_eq!(default_ip_end(), "192.168.20.83");
    assert!(default_true());
    assert_eq!(default_validators_kind(), "validators");
    assert_eq!(unknown_kind_message("foo"), "unknown kind: foo");
}

#[test]
fn chainspec_lookup_path() {
    assert_eq!(
        chainspec_path("/out", " net ").ok().as_deref(),
        Some("/out/net/net_config.json")
    );
    assert_eq!(chainspec_path("/out", "  ").err().as_deref(), Some("missing chainId"));
    assert_eq!(chainspec_missing_message(" net "), "Chainspec not found for chain net");
}
