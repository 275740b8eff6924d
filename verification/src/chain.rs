//! Generating a test network: checking the request, laying out each
//! validator's key file and network address, and naming what is written.
use vstd::prelude::*;

use crate::hcl::texts;
use crate::nodes::NomadHost;
use crate::polkajam::GenKeysOutput;
use crate::paths::{join_path, path_join};
use crate::text::{
    chars_of, concat, decimal, decimal_u64, lemma_decimal_digits, lemma_parse_decimal,
    lemma_split_none, lemma_split_sep, one_of, parse_unsigned, parse_unsigned_exec, split,
    split_chars, string_of, trim, trim_chars, is_ascii_digit, lemma_text_lt_irreflexive,
    lemma_text_lt_transitive, lemma_text_lt_trichotomy, text_lt, text_lt_exec,
};

verus! {

/// What a test network is generated from.
#[derive(Clone, Debug)]
pub struct GenTestnetParams {
    pub chain_id: String,
    pub num_validators: Option<u32>,
    pub base_port: u32,
    pub ip_start: String,
    pub ip_end: String,
    pub tiny: bool,
    /// Take the validators' addresses from ready Nomad hosts instead of the
    /// address range.
    pub use_nomad_hosts: bool,
    /// The dynamic-metadata role of those hosts.
    pub nomad_meta_role: String,
}

impl Default for GenTestnetParams {
    fn default() -> (r: Self)
        ensures
            r.chain_id@ == "testnet"@,
            r.num_validators is None,
            r.base_port == 40000,
            r.ip_start@ == "192.168.20.2"@,
            r.ip_end@ == "192.168.20.83"@,
            !r.tiny,
            !r.use_nomad_hosts,
            r.nomad_meta_role@ == "validators"@,
    {
        GenTestnetParams {
            chain_id: String::from_str("testnet"),
            num_validators: None,
            base_port: 40000,
            ip_start: String::from_str("192.168.20.2"),
            ip_end: String::from_str("192.168.20.83"),
            tiny: false,
            use_nomad_hosts: false,
            nomad_meta_role: String::from_str("validators"),
        }
    }
}

/// A validator's key seed file, base64-encoded.
pub struct KeyEntry {
    pub file_name: String,
    pub seed_base64: String,
}

/// Where the chainspec and the archive were saved.
pub struct SavedFiles {
    pub chainspec: String,
    pub zip: String,
}

/// What generating a test network produced.
pub struct GenTestnetResult {
    pub chainspec: String,
    pub keys: Vec<KeyEntry>,
    pub output_dir: String,
    pub chain_dir: String,
    pub saved_files: SavedFiles,
    /// The Nomad hosts the addresses came from, when they came from hosts.
    pub nomad_hosts: Option<Vec<NomadHost>>,
}

// ---------------------------------------------------------------------
// IPv4 addresses
// ---------------------------------------------------------------------

/// An octet: what `str::parse::<u16>` reads, at most 255.
pub open spec fn octet_value(part: Seq<char>) -> Option<nat> {
    match parse_unsigned(part, 65535) {
        Some(n) => if n <= 255 {
            Some(n)
        } else {
            None
        },
        None => None,
    }
}

/// A dotted-quad address as a big-endian number.
pub open spec fn ipv4_value(ip: Seq<char>) -> Option<u32> {
    let parts = split(ip, one_of(seq!['.']));
    if parts.len() != 4 {
        None
    } else {
        match (
            octet_value(parts[0]),
            octet_value(parts[1]),
            octet_value(parts[2]),
            octet_value(parts[3]),
        ) {
            (Some(a), Some(b), Some(c), Some(d)) => Some(
                (a * 16777216 + b * 65536 + c * 256 + d) as u32,
            ),
            _ => None,
        }
    }
}

pub open spec fn invalid_ip_message(ip: Seq<char>) -> Seq<char> {
    "Invalid IPv4 address: "@ + ip
}

fn octet_exec(part: &Vec<char>) -> (r: Option<u64>)
    ensures
        r matches Some(n) ==> octet_value(part@) == Some(n as nat) && n <= 255,
        r is None ==> octet_value(part@) is None,
{
    match parse_unsigned_exec(part, 65535) {
        Some(n) => if n <= 255 {
            Some(n)
        } else {
            None
        },
        None => None,
    }
}

fn invalid_ip_error(ip: &str) -> (r: String)
    ensures
        r@ == invalid_ip_message(ip@),
{
    string_of(&concat(&chars_of("Invalid IPv4 address: "), &chars_of(ip)))
}

/// Reads a dotted-quad IPv4 address as a number.
pub fn ipv4_to_int(ip: &str) -> (r: Result<u32, String>)
    ensures
        match ipv4_value(ip@) {
            Some(n) => r matches Ok(m) && m == n,
            None => r matches Err(e) && e@ == invalid_ip_message(ip@),
        },
{
    let v = chars_of(ip);
    let seps = vec!['.'];
    assert(seps@ =~= seq!['.']);
    let parts = split_chars(&v, &seps);
    let ghost ps = parts@.map_values(|x: Vec<char>| x@);
    if parts.len() != 4 {
        return Err(invalid_ip_error(ip));
    }
    assert(ps[0] == parts[0]@ && ps[1] == parts[1]@ && ps[2] == parts[2]@ && ps[3] == parts[3]@);
    let a = octet_exec(&parts[0]);
    let b = octet_exec(&parts[1]);
    let c = octet_exec(&parts[2]);
    let d = octet_exec(&parts[3]);
    match (a, b, c, d) {
        (Some(a), Some(b), Some(c), Some(d)) => {
            let n: u64 = a * 16777216 + b * 65536 + c * 256 + d;
            Ok(n as u32)
        },
        _ => Err(invalid_ip_error(ip)),
    }
}

/// A number as a dotted-quad address.
pub open spec fn ipv4_text(n: u32) -> Seq<char> {
    decimal((n / 16777216) as nat) + seq!['.'] + decimal(((n / 65536) % 256) as nat) + seq!['.']
        + decimal(((n / 256) % 256) as nat) + seq!['.'] + decimal((n % 256) as nat)
}

pub fn int_to_ipv4(n: u32) -> (r: String)
    ensures
        r@ == ipv4_text(n),
{
    let dot = vec!['.'];
    let a = decimal_u64((n / 16777216) as u64);
    let b = decimal_u64(((n / 65536) % 256) as u64);
    let c = decimal_u64(((n / 256) % 256) as u64);
    let d = decimal_u64((n % 256) as u64);
    let t = concat(&concat(&concat(&concat(&concat(&concat(&a, &dot), &b), &dot), &c), &dot), &d);
    assert(t@ =~= ipv4_text(n));
    string_of(&t)
}

proof fn lemma_decimal_no_dot(n: nat)
    ensures
        forall|k: int| 0 <= k < decimal(n).len() ==> !one_of(seq!['.'])(#[trigger] decimal(n)[k]),
{
    lemma_decimal_digits(n);
    assert forall|k: int| 0 <= k < decimal(n).len() implies !one_of(seq!['.'])(
        #[trigger] decimal(n)[k],
    ) by {
        assert(is_ascii_digit(decimal(n)[k]));
        if seq!['.'].contains(decimal(n)[k]) {
            assert(seq!['.'][0] == '.');
        }
    }
}

/// Reading back a rendered address gives the number it was rendered from.
pub proof fn lemma_ipv4_roundtrip(n: u32)
    ensures
        ipv4_value(ipv4_text(n)) == Some(n),
{
    let a = (n / 16777216) as nat;
    let b = ((n / 65536) % 256) as nat;
    let c = ((n / 256) % 256) as nat;
    let d = (n % 256) as nat;
    let p = one_of(seq!['.']);
    assert(seq!['.'][0] == '.');
    assert(p('.'));
    lemma_decimal_no_dot(a);
    lemma_decimal_no_dot(b);
    lemma_decimal_no_dot(c);
    lemma_decimal_no_dot(d);
    let rest3 = decimal(d);
    let rest2 = decimal(c) + seq!['.'] + rest3;
    let rest1 = decimal(b) + seq!['.'] + rest2;
    assert(ipv4_text(n) =~= decimal(a) + seq!['.'] + rest1);
    lemma_split_none(rest3, p);
    lemma_split_sep(decimal(c), '.', rest3, p);
    lemma_split_sep(decimal(b), '.', rest2, p);
    lemma_split_sep(decimal(a), '.', rest1, p);
    let parts = split(ipv4_text(n), p);
    assert(parts =~= seq![decimal(a), decimal(b), decimal(c), decimal(d)]);
    assert(n / 16777216 <= 255) by (bit_vector);
    lemma_parse_decimal(a, 65535);
    lemma_parse_decimal(b, 65535);
    lemma_parse_decimal(c, 65535);
    lemma_parse_decimal(d, 65535);
    assert((n / 16777216) * 16777216 + ((n / 65536) % 256) * 65536 + ((n / 256) % 256) * 256 + n
        % 256 == n) by (bit_vector);
}

// ---------------------------------------------------------------------
// The request
// ---------------------------------------------------------------------

/// How many validators a request asks for: six for a tiny network, else the
/// number given, else 1023.
pub open spec fn validator_count_spec(tiny: bool, num: Option<u32>) -> nat {
    if tiny {
        6
    } else {
        match num {
            Some(n) => n as nat,
            None => 1023,
        }
    }
}

pub open spec fn count_range_message() -> Seq<char> {
    "numValidators must be between 1 and 10000"@
}

/// The number of validators, which must be between 1 and 10000.
pub fn validator_count(params: &GenTestnetParams) -> (r: Result<u32, String>)
    ensures
        ({
            let n = validator_count_spec(params.tiny, params.num_validators);
            if 1 <= n <= 10000 {
                r matches Ok(m) && m == n
            } else {
                r matches Err(e) && e@ == count_range_message()
            }
        }),
{
    let n: u32 = if params.tiny {
        6
    } else {
        match params.num_validators {
            Some(n) => n,
            None => 1023,
        }
    };
    if n < 1 || n > 10000 {
        return Err(String::from_str("numValidators must be between 1 and 10000"));
    }
    Ok(n)
}

/// The checks a request passes, in order, with what each yields: the trimmed
/// chain id, the validator count and the two ends of the address range.
pub open spec fn layout_checks(p: GenTestnetParams) -> Result<(Seq<char>, nat, u32, u32), Seq<char>> {
    let c = trim(p.chain_id@);
    let n = validator_count_spec(p.tiny, p.num_validators);
    if c.len() == 0 {
        Err("chainId must not be empty"@)
    } else if !(1 <= n && n <= 10000) {
        Err(count_range_message())
    } else {
        match ipv4_value(p.ip_start@) {
            None => Err(invalid_ip_message(p.ip_start@)),
            Some(s) => match ipv4_value(p.ip_end@) {
                None => Err(invalid_ip_message(p.ip_end@)),
                Some(e) => if e < s {
                    Err("IP range invalid: "@ + p.ip_start@ + " > "@ + p.ip_end@)
                } else {
                    Ok((c, n, s, e))
                },
            },
        }
    }
}

/// The address range has a size that fits in a `u32` and every validator's
/// port fits too.
pub open spec fn layout_fits(p: GenTestnetParams) -> bool {
    layout_checks(p) matches Ok((c, n, s, e)) ==> !(s == 0 && e == u32::MAX) && p.base_port + n
        - 1 <= u32::MAX
}

/// Whether a request's address range and ports stay in range (the
/// requirement of `testnet_layout`), for callers to test first.
pub fn layout_arithmetic_fits(params: &GenTestnetParams) -> (b: bool)
    ensures
        b == layout_fits(*params),
{
    let cid = trim_chars(&chars_of(params.chain_id.as_str()));
    if cid.len() == 0 {
        return true;
    }
    let n = match validator_count(params) {
        Ok(n) => n,
        Err(_) => return true,
    };
    let start = match ipv4_to_int(params.ip_start.as_str()) {
        Ok(v) => v,
        Err(_) => return true,
    };
    let end = match ipv4_to_int(params.ip_end.as_str()) {
        Ok(v) => v,
        Err(_) => return true,
    };
    if end < start {
        return true;
    }
    !(start == 0 && end == 0xffff_ffffu32) && (params.base_port as u64) + (n as u64) - 1
        <= 0xffff_ffffu64
}

/// `val_` and the index, zero-padded to three digits.
pub open spec fn key_file_name(i: nat) -> Seq<char> {
    "val_"@ + (if i < 10 {
        seq!['0', '0']
    } else if i < 100 {
        seq!['0']
    } else {
        Seq::empty()
    }) + decimal(i)
}

/// Validator `i`'s network address: the range's addresses in turn (starting
/// over after the last), and ports counting up from `base_port`.
pub open spec fn net_addr(start: u32, available: nat, base_port: nat, i: nat) -> Seq<char> {
    ipv4_text((start + i % available) as u32) + seq![':'] + decimal(base_port + i)
}

/// A validator's key file name and network address.
pub struct ValidatorSlot {
    pub file_name: String,
    pub net_addr: String,
}

/// The validators of a network to generate.
pub struct TestnetLayout {
    pub chain_id: String,
    pub slots: Vec<ValidatorSlot>,
}

fn key_file_name_exec(i: u32) -> (r: String)
    ensures
        r@ == key_file_name(i as nat),
{
    let mut head = chars_of("val_");
    if i < 10 {
        head.push('0');
        head.push('0');
    } else if i < 100 {
        head.push('0');
    }
    let t = concat(&head, &decimal_u64(i as u64));
    assert(t@ =~= key_file_name(i as nat));
    string_of(&t)
}

/// Checks a request and lays out its validators.
pub fn testnet_layout(params: &GenTestnetParams) -> (r: Result<TestnetLayout, String>)
    requires
        layout_fits(*params),
    ensures
        match layout_checks(*params) {
            Err(m) => r matches Err(e) && e@ == m,
            Ok((c, n, s, e)) => r matches Ok(l) && l.chain_id@ == c && l.slots.len() == n && forall|
                i: int,
            |
                0 <= i < n ==> (#[trigger] l.slots[i]).file_name@ == key_file_name(i as nat)
                    && l.slots[i].net_addr@ == net_addr(
                    s,
                    (e - s + 1) as nat,
                    params.base_port as nat,
                    i as nat,
                ),
        },
{
    let cid = trim_chars(&chars_of(params.chain_id.as_str()));
    if cid.len() == 0 {
        return Err(String::from_str("chainId must not be empty"));
    }
    let n = match validator_count(params) {
        Ok(n) => n,
        Err(e) => return Err(e),
    };
    let start = match ipv4_to_int(params.ip_start.as_str()) {
        Ok(v) => v,
        Err(e) => return Err(e),
    };
    let end = match ipv4_to_int(params.ip_end.as_str()) {
        Ok(v) => v,
        Err(e) => return Err(e),
    };
    if end < start {
        let msg = concat(
            &concat(
                &concat(&chars_of("IP range invalid: "), &chars_of(params.ip_start.as_str())),
                &chars_of(" > "),
            ),
            &chars_of(params.ip_end.as_str()),
        );
        return Err(string_of(&msg));
    }
    let available: u32 = end - start + 1;
    let mut slots: Vec<ValidatorSlot> = Vec::new();
    let mut i: u32 = 0;
    while i < n
        invariant
            i <= n,
            n == validator_count_spec(params.tiny, params.num_validators),
            layout_checks(*params) == Ok::<(Seq<char>, nat, u32, u32), Seq<char>>(
                (cid@, n as nat, start, end),
            ),
            available == end - start + 1,
            params.base_port + n - 1 <= u32::MAX,
            slots.len() == i,
            forall|j: int|
                0 <= j < i ==> (#[trigger] slots[j]).file_name@ == key_file_name(j as nat)
                    && slots[j].net_addr@ == net_addr(
                    start,
                    available as nat,
                    params.base_port as nat,
                    j as nat,
                ),
        decreases n - i,
    {
        let file_name = key_file_name_exec(i);
        let ip = int_to_ipv4(start + i % available);
        let port = decimal_u64((params.base_port + i) as u64);
        let mut addr = chars_of(ip.as_str());
        addr.push(':');
        let addr = concat(&addr, &port);
        assert(addr@ =~= net_addr(start, available as nat, params.base_port as nat, i as nat));
        slots.push(ValidatorSlot { file_name, net_addr: string_of(&addr) });
        i = i + 1;
    }
    Ok(TestnetLayout { chain_id: string_of(&cid), slots })
}

/// The checks a request on Nomad hosts passes: the trimmed chain id and the
/// validator count (the address range is not used).
pub open spec fn host_layout_checks(p: GenTestnetParams) -> Result<(Seq<char>, nat), Seq<char>> {
    let c = trim(p.chain_id@);
    let n = validator_count_spec(p.tiny, p.num_validators);
    if c.len() == 0 {
        Err("chainId must not be empty"@)
    } else if !(1 <= n && n <= 10000) {
        Err(count_range_message())
    } else {
        Ok((c, n))
    }
}

/// Every validator's port fits in a `u32`.
pub open spec fn host_layout_fits(p: GenTestnetParams) -> bool {
    host_layout_checks(p) matches Ok((c, n)) ==> p.base_port + n - 1 <= u32::MAX
}

/// Validator `i`'s network address on Nomad hosts: the hosts in turn
/// (starting over after the last), ports counting up from `base_port`.
pub open spec fn host_net_addr(hosts: Seq<Seq<char>>, base_port: nat, i: nat) -> Seq<char> {
    hosts[(i % hosts.len()) as int] + seq![':'] + decimal(base_port + i)
}

/// Whether a request on Nomad hosts keeps its ports in range (the
/// requirement of `testnet_layout_on_hosts`), for callers to test first.
pub fn host_layout_arithmetic_fits(params: &GenTestnetParams) -> (b: bool)
    ensures
        b == host_layout_fits(*params),
{
    let cid = trim_chars(&chars_of(params.chain_id.as_str()));
    if cid.len() == 0 {
        return true;
    }
    match validator_count(params) {
        Ok(n) => (params.base_port as u64) + (n as u64) - 1 <= 0xffff_ffffu64,
        Err(_) => true,
    }
}

/// Checks a request and lays out its validators on the given host IPs (the
/// Nomad hosts' addresses, in their order).
pub fn testnet_layout_on_hosts(params: &GenTestnetParams, hosts: &Vec<String>) -> (r: Result<TestnetLayout, String>)
    requires
        hosts.len() > 0,
        host_layout_fits(*params),
    ensures
        match host_layout_checks(*params) {
            Err(m) => r matches Err(e) && e@ == m,
            Ok((c, n)) => r matches Ok(l) && l.chain_id@ == c && l.slots.len() == n && forall|i: int|
                0 <= i < n ==> (#[trigger] l.slots[i]).file_name@ == key_file_name(i as nat)
                    && l.slots[i].net_addr@ == host_net_addr(texts(*hosts), params.base_port as nat, i as nat),
        },
{
    let cid = trim_chars(&chars_of(params.chain_id.as_str()));
    if cid.len() == 0 {
        return Err(String::from_str("chainId must not be empty"));
    }
    let n = match validator_count(params) {
        Ok(n) => n,
        Err(e) => return Err(e),
    };
    let ghost hv = texts(*hosts);
    let mut slots: Vec<ValidatorSlot> = Vec::new();
    let mut i: u32 = 0;
    while i < n
        invariant
            i <= n,
            hosts.len() > 0,
            hv == texts(*hosts),
            host_layout_checks(*params) == Ok::<(Seq<char>, nat), Seq<char>>((cid@, n as nat)),
            params.base_port + n - 1 <= u32::MAX,
            slots.len() == i,
            forall|j: int|
                0 <= j < i ==> (#[trigger] slots[j]).file_name@ == key_file_name(j as nat)
                    && slots[j].net_addr@ == host_net_addr(hv, params.base_port as nat, j as nat),
        decreases n - i,
    {
        let file_name = key_file_name_exec(i);
        let k = (i as usize) % hosts.len();
        let port = decimal_u64((params.base_port + i) as u64);
        let mut addr = chars_of(hosts[k].as_str());
        addr.push(':');
        let addr = concat(&addr, &port);
        assert(hv[k as int] == hosts[k as int]@);
        assert(addr@ =~= host_net_addr(hv, params.base_port as nat, i as nat));
        slots.push(ValidatorSlot { file_name, net_addr: string_of(&addr) });
        i = i + 1;
    }
    Ok(TestnetLayout { chain_id: string_of(&cid), slots })
}

/// Checks a request on Nomad hosts before any host is looked up: the chain
/// id must not be blank and the validator count must be in range.
pub fn host_request_check(params: &GenTestnetParams) -> (r: Result<(), String>)
    ensures
        match host_layout_checks(*params) {
            Ok(_) => r is Ok,
            Err(m) => r matches Err(e) && e@ == m,
        },
{
    let cid = trim_chars(&chars_of(params.chain_id.as_str()));
    if cid.len() == 0 {
        return Err(String::from_str("chainId must not be empty"));
    }
    match validator_count(params) {
        Ok(_) => Ok(()),
        Err(e) => Err(e),
    }
}

/// A validator of the chainspec: its keys and network address.
pub struct GenesisValidator {
    pub peer_id: String,
    pub bandersnatch: String,
    pub net_addr: String,
}

/// The chainspec: the chain's id and its genesis validators, in order.
pub struct ChainConfig {
    pub id: String,
    pub genesis_validators: Vec<GenesisValidator>,
}

/// The chainspec of a laid-out network, given each validator's keys in
/// order: validator `i` has the keys `gen-keys` reported for its key file
/// and its laid-out address.
pub fn chain_config(layout: &TestnetLayout, keys: &Vec<GenKeysOutput>) -> (r: ChainConfig)
    requires
        keys.len() == layout.slots.len(),
    ensures
        r.id@ == layout.chain_id@,
        r.genesis_validators.len() == keys.len(),
        forall|i: int|
            0 <= i < keys.len() ==> (#[trigger] r.genesis_validators[i]).peer_id@ == keys[i].peer_id@
                && r.genesis_validators[i].bandersnatch@ == keys[i].bandersnatch_hex@
                && r.genesis_validators[i].net_addr@ == layout.slots[i].net_addr@,
{
    let mut vs: Vec<GenesisValidator> = Vec::new();
    let mut i: usize = 0;
    while i < keys.len()
        invariant
            i <= keys.len(),
            keys.len() == layout.slots.len(),
            vs.len() == i,
            forall|j: int|
                0 <= j < i ==> (#[trigger] vs[j]).peer_id@ == keys[j].peer_id@ && vs[j].bandersnatch@
                    == keys[j].bandersnatch_hex@ && vs[j].net_addr@ == layout.slots[j].net_addr@,
        decreases keys.len() - i,
    {
        vs.push(
            GenesisValidator {
                peer_id: keys[i].peer_id.clone(),
                bandersnatch: keys[i].bandersnatch_hex.clone(),
                net_addr: layout.slots[i].net_addr.clone(),
            },
        );
        i = i + 1;
    }
    ChainConfig { id: layout.chain_id.clone(), genesis_validators: vs }
}

/// A chainspec's validators as text: peer id, bandersnatch key, network
/// address.
pub open spec fn validator_texts(vs: Seq<GenesisValidator>) -> Seq<(Seq<char>, Seq<char>, Seq<char>)> {
    vs.map_values(|v: GenesisValidator| (v.peer_id@, v.bandersnatch@, v.net_addr@))
}

/// What `serde_json::to_string_pretty` writes for the JSON object
/// `{"genesis_validators": [{"bandersnatch": B, "net_addr": N, "peer_id": P}, ..], "id": ID}`
/// whose validators are the `(P, B, N)` of `validators`, in order.
pub uninterp spec fn pretty_chain_config(id: Seq<char>, validators: Seq<(Seq<char>, Seq<char>, Seq<char>)>) -> Seq<char>;

/// `serde_json::to_string_pretty` on the chainspec as a JSON object. The
/// contract names the text it writes; serde_json writes an object's keys in
/// sorted order, and the validators' order is kept. Writing into memory
/// fails on no input: the source shows no error for string values.
#[verifier::external_body]
fn pretty_chain_config_json(config: &ChainConfig) -> (r: String)
    ensures
        r@ == pretty_chain_config(config.id@, validator_texts(config.genesis_validators@)),
{
    let list: Vec<serde_json::Value> = config.genesis_validators.iter().map(|v| {
        let mut m = serde_json::Map::new();
        m.insert("bandersnatch".into(), v.bandersnatch.clone().into());
        m.insert("net_addr".into(), v.net_addr.clone().into());
        m.insert("peer_id".into(), v.peer_id.clone().into());
        serde_json::Value::Object(m)
    }).collect();
    let mut doc = serde_json::Map::new();
    doc.insert("genesis_validators".into(), serde_json::Value::Array(list));
    doc.insert("id".into(), config.id.clone().into());
    serde_json::to_string_pretty(&doc).unwrap_or_default()
}

/// The chainspec file's text: the chainspec as pretty JSON, and a closing
/// newline.
pub fn chainspec_text(config: &ChainConfig) -> (r: String)
    ensures
        r@ == pretty_chain_config(config.id@, validator_texts(config.genesis_validators@)) + seq!['\n'],
{
    let json = pretty_chain_config_json(config);
    let mut v = chars_of(json.as_str());
    v.push('\n');
    string_of(&v)
}

// ---------------------------------------------------------------------
// What gets written, and where
// ---------------------------------------------------------------------

/// `CHAIN_config.json`: the chainspec's file name.
pub open spec fn config_name(chain_id: Seq<char>) -> Seq<char> {
    chain_id + "_config.json"@
}

/// `CHAIN-config-and-keys.zip`: the archive's file name.
pub open spec fn archive_name(chain_id: Seq<char>) -> Seq<char> {
    chain_id + "-config-and-keys.zip"@
}

pub fn config_file_name(chain_id: &str) -> (r: String)
    ensures
        r@ == config_name(chain_id@),
{
    string_of(&concat(&chars_of(chain_id), &chars_of("_config.json")))
}

/// The files a generated chain is saved as.
pub struct ChainFiles {
    pub output_dir: String,
    pub chain_dir: String,
    pub chainspec: String,
    pub zip: String,
    pub spec: String,
    pub keys_dir: String,
    pub polkajam: String,
}

/// The files of chain `chain_id` under `output_dir`.
pub fn chain_files(output_dir: &str, chain_id: &str) -> (r: ChainFiles)
    ensures
        r.output_dir@ == output_dir@,
        r.chain_dir@ == path_join(output_dir@, chain_id@),
        r.chainspec@ == path_join(r.chain_dir@, config_name(chain_id@)),
        r.zip@ == path_join(r.chain_dir@, archive_name(chain_id@)),
        r.spec@ == path_join(r.chain_dir@, "spec.json"@),
        r.keys_dir@ == path_join(r.chain_dir@, "keys"@),
        r.polkajam@ == path_join(r.chain_dir@, "polkajam"@),
{
    let chain_dir = join_path(output_dir, chain_id);
    let config = config_file_name(chain_id);
    let archive = string_of(&concat(&chars_of(chain_id), &chars_of("-config-and-keys.zip")));
    ChainFiles {
        output_dir: string_of(&chars_of(output_dir)),
        chainspec: join_path(chain_dir.as_str(), config.as_str()),
        zip: join_path(chain_dir.as_str(), archive.as_str()),
        spec: join_path(chain_dir.as_str(), "spec.json"),
        keys_dir: join_path(chain_dir.as_str(), "keys"),
        polkajam: join_path(chain_dir.as_str(), "polkajam"),
        chain_dir,
    }
}

// ---------------------------------------------------------------------
// Key seeds
// ---------------------------------------------------------------------

/// The character of a 6-bit value in the standard base64 alphabet.
pub open spec fn b64_char(v: nat) -> char {
    if v < 26 {
        ((v + 'A' as u32) as u32) as char
    } else if v < 52 {
        ((v - 26 + 'a' as u32) as u32) as char
    } else if v < 62 {
        ((v - 52 + '0' as u32) as u32) as char
    } else if v == 62 {
        '+'
    } else {
        '/'
    }
}

/// Standard base64 (RFC 4648, with `=` padding): each three bytes become
/// four characters of six bits each; a last group of one or two bytes is
/// padded to four characters.
pub open spec fn base64_spec(b: Seq<u8>) -> Seq<char>
    decreases b.len(),
{
    if b.len() == 0 {
        Seq::empty()
    } else if b.len() == 1 {
        seq![b64_char(b[0] as nat / 4), b64_char((b[0] as nat % 4) * 16), '=', '=']
    } else if b.len() == 2 {
        seq![
            b64_char(b[0] as nat / 4),
            b64_char((b[0] as nat % 4) * 16 + b[1] as nat / 16),
            b64_char((b[1] as nat % 16) * 4),
            '=',
        ]
    } else {
        seq![
            b64_char(b[0] as nat / 4),
            b64_char((b[0] as nat % 4) * 16 + b[1] as nat / 16),
            b64_char((b[1] as nat % 16) * 4 + b[2] as nat / 64),
            b64_char(b[2] as nat % 64),
        ] + base64_spec(b.skip(3))
    }
}

/// `base64::engine::general_purpose::STANDARD.encode`: the standard alphabet
/// with padding, as the crate documents it. It panics only where the encoded
/// length overflows `usize`, which `requires` rules out.
#[verifier::external_body]
fn base64_encode(bytes: &Vec<u8>) -> (r: String)
    requires
        bytes.len() / 3 * 4 + 4 <= usize::MAX,
    ensures
        r@ == base64_spec(bytes@),
{
    base64::Engine::encode(&base64::engine::general_purpose::STANDARD, bytes)
}

/// A key seed file's entry: its name, and its bytes in standard base64.
pub fn key_entry(file_name: &str, bytes: &Vec<u8>) -> (r: KeyEntry)
    requires
        bytes.len() / 3 * 4 + 4 <= usize::MAX,
    ensures
        r.file_name@ == file_name@,
        r.seed_base64@ == base64_spec(bytes@),
{
    KeyEntry { file_name: string_of(&chars_of(file_name)), seed_base64: base64_encode(bytes) }
}

/// The entries of the key seed files, in order.
pub fn key_entries(seeds: &Vec<(String, Vec<u8>)>) -> (r: Vec<KeyEntry>)
    requires
        forall|i: int| 0 <= i < seeds.len() ==> (#[trigger] seeds[i]).1.len() / 3 * 4 + 4 <= usize::MAX,
    ensures
        r.len() == seeds.len(),
        forall|i: int|
            0 <= i < seeds.len() ==> (#[trigger] r[i]).file_name@ == seeds[i].0@
                && r[i].seed_base64@ == base64_spec(seeds[i].1@),
{
    let mut r: Vec<KeyEntry> = Vec::new();
    let mut i: usize = 0;
    while i < seeds.len()
        invariant
            i <= seeds.len(),
            r.len() == i,
            forall|j: int| 0 <= j < seeds.len() ==> (#[trigger] seeds[j]).1.len() / 3 * 4 + 4 <= usize::MAX,
            forall|j: int|
                0 <= j < i ==> (#[trigger] r[j]).file_name@ == seeds[j].0@ && r[j].seed_base64@
                    == base64_spec(seeds[j].1@),
        decreases seeds.len() - i,
    {
        let e = key_entry(seeds[i].0.as_str(), &seeds[i].1);
        r.push(e);
        i = i + 1;
    }
    r
}

// ---------------------------------------------------------------------
// Listing chains
// ---------------------------------------------------------------------

/// In increasing order (each text at most the next, by `String`'s order).
pub open spec fn texts_sorted(s: Seq<Seq<char>>) -> bool {
    forall|i: int, j: int| 0 <= i < j < s.len() ==> !text_lt(#[trigger] s[j], #[trigger] s[i])
}

/// The chain names in increasing order: the same names, sorted.
pub fn sort_chain_names(names: Vec<String>) -> (r: Vec<String>)
    ensures
        texts_sorted(texts(r)),
        texts(r).to_multiset() == texts(names).to_multiset(),
{
    broadcast use vstd::seq_lib::to_multiset_insert;

    let ghost all = texts(names);
    let mut out: Vec<String> = Vec::new();
    assert(all.take(0) =~= Seq::<Seq<char>>::empty());
    assert(texts(out) =~= Seq::<Seq<char>>::empty());
    let mut i: usize = 0;
    while i < names.len()
        invariant
            i <= names.len(),
            all == texts(names),
            texts_sorted(texts(out)),
            texts(out).to_multiset() == all.take(i as int).to_multiset(),
        decreases names.len() - i,
    {
        let x = names[i].clone();
        let xv = chars_of(x.as_str());
        let mut j: usize = 0;
        while j < out.len() && !text_lt_exec(&xv, &chars_of(out[j].as_str()))
            invariant
                j <= out.len(),
                xv@ == x@,
                forall|k: int| 0 <= k < j ==> !text_lt(x@, #[trigger] texts(out)[k]),
            decreases out.len() - j,
        {
            j = j + 1;
        }
        let ghost old_out = texts(out);
        out.insert(j, x);
        assert(texts(out) =~= old_out.insert(j as int, x@));
        assert(texts_sorted(texts(out))) by {
            let t = texts(out);
            assert forall|a: int, b: int| 0 <= a < b < t.len() implies !text_lt(
                #[trigger] t[b],
                #[trigger] t[a],
            ) by {
                if b == j {
                    assert(t[a] == old_out[a]);
                } else if a == j {
                    assert(t[b] == old_out[b - 1]);
                    assert(j < old_out.len());
                    assert(text_lt(x@, old_out[j as int]));
                    if j < b - 1 {
                        assert(!text_lt(old_out[b - 1], old_out[j as int]));
                        lemma_text_lt_trichotomy(old_out[b - 1], old_out[j as int]);
                        if old_out[b - 1] != old_out[j as int] {
                            lemma_text_lt_transitive(x@, old_out[j as int], old_out[b - 1]);
                        }
                    }
                    lemma_text_lt_trichotomy(x@, old_out[b - 1]);
                } else {
                    let oa = if a < j { a } else { a - 1 };
                    let ob = if b < j { b } else { b - 1 };
                    assert(t[a] == old_out[oa]);
                    assert(t[b] == old_out[ob]);
                }
            }
        }
        assert(all.take(i + 1) =~= all.take(i as int).push(all[i as int]));
        proof {
            vstd::seq_lib::to_multiset_build(all.take(i as int), all[i as int]);
            vstd::seq_lib::to_multiset_insert(old_out, j as int, x@);
        }
        assert(x@ == all[i as int]);
        assert(texts(out).to_multiset() == old_out.to_multiset().insert(x@));
        assert(all.take(i + 1).to_multiset() == all.take(i as int).to_multiset().insert(x@));
        i = i + 1;
    }
    assert(all.take(i as int) =~= all);
    out
}

} // verus!
