//! Nomad client nodes: which are available, which role their dynamic
//! metadata gives them, and which host IP they can be reached at.
use vstd::prelude::*;

use crate::hcl::{opt_view, texts};
use crate::strmap::StrMap;
use crate::text::{
    chars_of, concat, find_from, lemma_find_from, occurs_at, occurs_at_exec, one_of, parse_unsigned, parse_unsigned_exec,
    slice, split, split_chars, string_of, text_eq_exec, trim, trim_chars,
};

verus! {

// ---------------------------------------------------------------------
// The model of a node document
// ---------------------------------------------------------------------

/// A top-level field of a node document, as a mathematical value.
pub ghost enum FieldV {
    Bool(bool),
    Str(Seq<char>),
    /// An object; a member is `Some(text)` when it holds a string.
    Obj(Map<Seq<char>, Option<Seq<char>>>),
    Other,
}

/// A top-level field of a node document, as far as the node logic reads it.
pub enum NodeField {
    Bool(bool),
    Str(String),
    /// An object; a member is `Some(text)` when it holds a string and
    /// `None` when it holds anything else (null included).
    Obj(StrMap<Option<String>>),
    /// Null, a number or an array.
    Other,
}

pub open spec fn obj_view(m: StrMap<Option<String>>) -> Map<Seq<char>, Option<Seq<char>>> {
    m@.map_values(|o: Option<String>| opt_view(o))
}

impl View for NodeField {
    type V = FieldV;

    open spec fn view(&self) -> FieldV {
        match self {
            NodeField::Bool(b) => FieldV::Bool(*b),
            NodeField::Str(s) => FieldV::Str(s@),
            NodeField::Obj(m) => FieldV::Obj(obj_view(*m)),
            NodeField::Other => FieldV::Other,
        }
    }
}

pub open spec fn field_wf(f: NodeField) -> bool {
    match f {
        NodeField::Obj(m) => m.wf(),
        _ => true,
    }
}

/// A node document (an entry of `/v1/nodes`, a node's detail, or a
/// metadata response): its top-level fields. A document that is not an
/// object has no fields and takes none.
pub struct NomadNode {
    pub fields: StrMap<NodeField>,
    pub is_object: bool,
}

pub open spec fn fields_view(fs: StrMap<NodeField>) -> Map<Seq<char>, FieldV> {
    fs@.map_values(|f: NodeField| f@)
}

impl NomadNode {
    pub open spec fn wf(self) -> bool {
        &&& self.fields.wf()
        &&& forall|k: Seq<char>| #[trigger] self.fields@.contains_key(k) ==> field_wf(self.fields@[k])
        &&& !self.is_object ==> self.fields@ == Map::<Seq<char>, NodeField>::empty()
    }

    pub open spec fn fv(self) -> Map<Seq<char>, FieldV> {
        fields_view(self.fields)
    }
}

pub fn clone_opt_string(o: &Option<String>) -> (r: Option<String>)
    ensures
        opt_view(r) == opt_view(*o),
{
    match o {
        Some(s) => Some(s.clone()),
        None => None,
    }
}

/// A copy of an object member map.
pub fn clone_obj(m: &StrMap<Option<String>>) -> (r: StrMap<Option<String>>)
    requires
        m.wf(),
    ensures
        r.wf(),
        obj_view(r) == obj_view(*m),
{
    let mut r: StrMap<Option<String>> = StrMap::new();
    let mut i: usize = 0;
    while i < m.len()
        invariant
            i <= m.pairs().len(),
            m.wf(),
            r.wf(),
            forall|k: Seq<char>| #[trigger] obj_view(r).contains_key(k) <==> exists|j: int|
                0 <= j < i && m.pairs()[j].0 == k,
            forall|k: Seq<char>| #[trigger] obj_view(r).contains_key(k) ==> obj_view(r)[k]
                == obj_view(*m)[k],
        decreases m.pairs().len() - i,
    {
        proof {
            m.lemma_view_entry(i as int);
        }
        let ghost before = obj_view(r);
        assert(obj_view(*m)[m.pairs()[i as int].0] == opt_view(m.pairs()[i as int].1));
        let k = m.key_at(i).clone();
        let v = clone_opt_string(m.value_at(i));
        let ghost kk = k@;
        r.insert(k, v);
        assert(obj_view(r) =~= before.insert(kk, opt_view(m.pairs()[i as int].1)));
        proof {
            assert forall|q: Seq<char>| #[trigger] obj_view(r).contains_key(q) <==> exists|j: int|
                0 <= j < i + 1 && m.pairs()[j].0 == q by {
                if q == kk {
                    assert(0 <= i < i + 1 && m.pairs()[i as int].0 == q);
                }
                if exists|j: int| 0 <= j < i + 1 && m.pairs()[j].0 == q {
                    let j = choose|j: int| 0 <= j < i + 1 && m.pairs()[j].0 == q;
                    if j < i {
                        assert(exists|j: int| 0 <= j < i && m.pairs()[j].0 == q);
                    }
                }
            }
        }
        i = i + 1;
    }
    proof {
        assert forall|q: Seq<char>| #[trigger] obj_view(*m).contains_key(q) implies exists|j: int|
            0 <= j < i && m.pairs()[j].0 == q by {
            m.lemma_view_key(q);
        }
        assert forall|q: Seq<char>| #[trigger] obj_view(r).contains_key(q) implies obj_view(
            *m,
        ).contains_key(q) by {
            let j = choose|j: int| 0 <= j < i && m.pairs()[j].0 == q;
            m.lemma_view_entry(j);
        }
    }
    assert(obj_view(r) =~= obj_view(*m));
    r
}

pub fn clone_field(f: &NodeField) -> (r: NodeField)
    requires
        field_wf(*f),
    ensures
        field_wf(r),
        r@ == f@,
{
    match f {
        NodeField::Bool(b) => NodeField::Bool(*b),
        NodeField::Str(s) => NodeField::Str(s.clone()),
        NodeField::Obj(m) => NodeField::Obj(clone_obj(m)),
        NodeField::Other => NodeField::Other,
    }
}

// ---------------------------------------------------------------------
// Reading fields
// ---------------------------------------------------------------------

/// The field `k`, trimmed, when it holds a string that is not blank.
pub open spec fn nonblank_field(fs: Map<Seq<char>, FieldV>, k: Seq<char>) -> Option<Seq<char>> {
    if fs.contains_key(k) {
        match fs[k] {
            FieldV::Str(s) => if trim(s).len() > 0 {
                Some(trim(s))
            } else {
                None
            },
            _ => None,
        }
    } else {
        None
    }
}

/// The field `k`, when it holds a boolean.
pub open spec fn bool_at(fs: Map<Seq<char>, FieldV>, k: Seq<char>) -> Option<bool> {
    if fs.contains_key(k) {
        match fs[k] {
            FieldV::Bool(b) => Some(b),
            _ => None,
        }
    } else {
        None
    }
}

/// The member `k`, trimmed, when it holds a string that is not blank.
pub open spec fn nonblank_member(m: Map<Seq<char>, Option<Seq<char>>>, k: Seq<char>) -> Option<Seq<char>> {
    if m.contains_key(k) {
        match m[k] {
            Some(s) => if trim(s).len() > 0 {
                Some(trim(s))
            } else {
                None
            },
            None => None,
        }
    } else {
        None
    }
}

/// The first of `keys` (from index `i` on) whose field holds a string that
/// is not blank: that string, trimmed.
pub open spec fn str_field_from(fs: Map<Seq<char>, FieldV>, keys: Seq<Seq<char>>, i: int) -> Option<Seq<char>>
    decreases keys.len() - i,
{
    if i < 0 || i >= keys.len() {
        None
    } else if nonblank_field(fs, keys[i]) is Some {
        nonblank_field(fs, keys[i])
    } else {
        str_field_from(fs, keys, i + 1)
    }
}

pub open spec fn str_field(fs: Map<Seq<char>, FieldV>, keys: Seq<Seq<char>>) -> Option<Seq<char>> {
    str_field_from(fs, keys, 0)
}

/// The first of `keys` whose field holds a boolean: that boolean; else false.
pub open spec fn bool_field_from(fs: Map<Seq<char>, FieldV>, keys: Seq<Seq<char>>, i: int) -> bool
    decreases keys.len() - i,
{
    if i < 0 || i >= keys.len() {
        false
    } else if bool_at(fs, keys[i]) is Some {
        bool_at(fs, keys[i])->0
    } else {
        bool_field_from(fs, keys, i + 1)
    }
}

/// The first of `keys` that is present: its field, when it is an object.
pub open spec fn obj_field_from(fs: Map<Seq<char>, FieldV>, keys: Seq<Seq<char>>, i: int) -> Option<Map<Seq<char>, Option<Seq<char>>>>
    decreases keys.len() - i,
{
    if i < 0 || i >= keys.len() {
        None
    } else if fs.contains_key(keys[i]) {
        match fs[keys[i]] {
            FieldV::Obj(m) => Some(m),
            _ => None,
        }
    } else {
        obj_field_from(fs, keys, i + 1)
    }
}

/// The first of `keys` whose member holds a string that is not blank: that
/// string, trimmed.
pub open spec fn member_from(m: Map<Seq<char>, Option<Seq<char>>>, keys: Seq<Seq<char>>, i: int) -> Option<Seq<char>>
    decreases keys.len() - i,
{
    if i < 0 || i >= keys.len() {
        None
    } else if nonblank_member(m, keys[i]) is Some {
        nonblank_member(m, keys[i])
    } else {
        member_from(m, keys, i + 1)
    }
}

pub open spec fn member(m: Map<Seq<char>, Option<Seq<char>>>, keys: Seq<Seq<char>>) -> Option<Seq<char>> {
    member_from(m, keys, 0)
}

pub open spec fn kviews(keys: Vec<Vec<char>>) -> Seq<Seq<char>> {
    keys@.map_values(|k: Vec<char>| k@)
}

/// The key list `keys` as character vectors.
fn key_list(keys: &[&str]) -> (r: Vec<Vec<char>>)
    ensures
        r@.len() == keys@.len(),
        forall|i: int| 0 <= i < keys@.len() ==> #[trigger] r@[i]@ == keys@[i]@,
{
    let mut r: Vec<Vec<char>> = Vec::new();
    let mut i: usize = 0;
    while i < keys.len()
        invariant
            i <= keys@.len(),
            r@.len() == i,
            forall|j: int| 0 <= j < i ==> #[trigger] r@[j]@ == keys@[j]@,
        decreases keys@.len() - i,
    {
        r.push(chars_of(keys[i]));
        i = i + 1;
    }
    r
}

fn str_field_exec(fs: &StrMap<NodeField>, keys: &Vec<Vec<char>>) -> (r: Option<Vec<char>>)
    requires
        fs.wf(),
    ensures
        match r {
            Some(s) => str_field(fields_view(*fs), kviews(*keys)) == Some(s@),
            None => str_field(fields_view(*fs), kviews(*keys)) is None,
        },
{
    let ghost ks = kviews(*keys);
    let mut i: usize = 0;
    while i < keys.len()
        invariant
            i <= keys.len(),
            fs.wf(),
            ks == kviews(*keys),
            str_field_from(fields_view(*fs), ks, i as int) == str_field(fields_view(*fs), ks),
        decreases keys.len() - i,
    {
        match fs.get(&keys[i]) {
            Some(NodeField::Str(s)) => {
                let t = trim_chars(&chars_of(s.as_str()));
                if t.len() > 0 {
                    return Some(t);
                }
            },
            _ => {},
        }
        i = i + 1;
    }
    None
}

fn bool_field_exec(fs: &StrMap<NodeField>, keys: &Vec<Vec<char>>) -> (r: bool)
    requires
        fs.wf(),
    ensures
        r == bool_field_from(fields_view(*fs), kviews(*keys), 0),
{
    let ghost ks = kviews(*keys);
    let mut i: usize = 0;
    while i < keys.len()
        invariant
            i <= keys.len(),
            fs.wf(),
            ks == kviews(*keys),
            bool_field_from(fields_view(*fs), ks, i as int) == bool_field_from(fields_view(*fs), ks, 0),
        decreases keys.len() - i,
    {
        match fs.get(&keys[i]) {
            Some(NodeField::Bool(b)) => {
                return *b;
            },
            _ => {},
        }
        i = i + 1;
    }
    false
}

fn obj_field_exec<'a>(node: &'a NomadNode, keys: &Vec<Vec<char>>) -> (r: Option<&'a StrMap<Option<String>>>)
    requires
        node.wf(),
    ensures
        match r {
            Some(m) => obj_field_from(node.fv(), kviews(*keys), 0) == Some(obj_view(*m)) && m.wf(),
            None => obj_field_from(node.fv(), kviews(*keys), 0) is None,
        },
{
    let ghost ks = kviews(*keys);
    let mut i: usize = 0;
    while i < keys.len()
        invariant
            i <= keys.len(),
            node.wf(),
            ks == kviews(*keys),
            obj_field_from(node.fv(), ks, i as int) == obj_field_from(node.fv(), ks, 0),
        decreases keys.len() - i,
    {
        match node.fields.get(&keys[i]) {
            Some(f) => {
                return match f {
                    NodeField::Obj(m) => Some(m),
                    _ => None,
                };
            },
            None => {},
        }
        i = i + 1;
    }
    None
}

fn member_exec(m: &StrMap<Option<String>>, keys: &Vec<Vec<char>>) -> (r: Option<Vec<char>>)
    requires
        m.wf(),
    ensures
        match r {
            Some(s) => member(obj_view(*m), kviews(*keys)) == Some(s@),
            None => member(obj_view(*m), kviews(*keys)) is None,
        },
{
    let ghost ks = kviews(*keys);
    let mut i: usize = 0;
    while i < keys.len()
        invariant
            i <= keys.len(),
            m.wf(),
            ks == kviews(*keys),
            member_from(obj_view(*m), ks, i as int) == member(obj_view(*m), ks),
        decreases keys.len() - i,
    {
        match m.get(&keys[i]) {
            Some(Some(s)) => {
                let t = trim_chars(&chars_of(s.as_str()));
                if t.len() > 0 {
                    return Some(t);
                }
            },
            _ => {},
        }
        i = i + 1;
    }
    None
}

// ---------------------------------------------------------------------
// IPv4 addresses
// ---------------------------------------------------------------------

/// Four `.`-separated parts, each a `u16` (as `str::parse` reads it) of at most 255.
pub open spec fn looks_like_ipv4_spec(s: Seq<char>) -> bool {
    let parts = split(s, one_of(seq!['.']));
    parts.len() == 4 && forall|i: int| 0 <= i < 4 ==> (match parse_unsigned(#[trigger] parts[i], 0xffff) {
        Some(n) => n <= 255,
        None => false,
    })
}

pub fn looks_like_ipv4(ip: &Vec<char>) -> (b: bool)
    ensures
        b == looks_like_ipv4_spec(ip@),
{
    let seps = vec!['.'];
    assert(seps@ =~= seq!['.']);
    let parts = split_chars(ip, &seps);
    let ghost ps = parts@.map_values(|x: Vec<char>| x@);
    if parts.len() != 4 {
        return false;
    }
    let mut i: usize = 0;
    while i < 4
        invariant
            i <= 4,
            parts.len() == 4,
            ps == parts@.map_values(|x: Vec<char>| x@),
            ps == split(ip@, one_of(seq!['.'])),
            forall|j: int| 0 <= j < i ==> (match parse_unsigned(#[trigger] ps[j], 0xffff) {
                Some(n) => n <= 255,
                None => false,
            }),
        decreases 4 - i,
    {
        assert(ps[i as int] == parts@[i as int]@);
        match parse_unsigned_exec(&parts[i], 0xffff) {
            Some(n) => {
                if n > 255 {
                    return false;
                }
            },
            None => {
                return false;
            },
        }
        i = i + 1;
    }
    true
}

pub open spec fn list_sep() -> Seq<char> {
    seq![',', ' ']
}

/// The IPv4 addresses of a `,`- or space-separated list, trimmed, in order.
pub open spec fn ipv4s_from_list_spec(raw: Seq<char>) -> Seq<Seq<char>> {
    split(raw, one_of(list_sep())).map_values(|p: Seq<char>| trim(p)).filter(
        |p: Seq<char>| looks_like_ipv4_spec(p),
    )
}

pub fn ipv4s_from_list(raw: &Vec<char>) -> (r: Vec<Vec<char>>)
    ensures
        r@.map_values(|x: Vec<char>| x@) == ipv4s_from_list_spec(raw@),
{
    let seps = vec![',', ' '];
    assert(seps@ =~= list_sep());
    let parts = split_chars(raw, &seps);
    let ghost trimmed = parts@.map_values(|x: Vec<char>| x@).map_values(|p: Seq<char>| trim(p));
    let ghost pred = |p: Seq<char>| looks_like_ipv4_spec(p);
    let mut out: Vec<Vec<char>> = Vec::new();
    let mut i: usize = 0;
    while i < parts.len()
        invariant
            i <= parts.len(),
            trimmed == parts@.map_values(|x: Vec<char>| x@).map_values(|p: Seq<char>| trim(p)),
            pred == (|p: Seq<char>| looks_like_ipv4_spec(p)),
            out@.map_values(|x: Vec<char>| x@) == trimmed.take(i as int).filter(pred),
        decreases parts.len() - i,
    {
        let t = trim_chars(&parts[i]);
        assert(trimmed.take(i + 1).drop_last() =~= trimmed.take(i as int));
        assert(trimmed.take(i + 1).last() == t@);
        reveal_with_fuel(Seq::filter, 1);
        let ghost before = out@.map_values(|x: Vec<char>| x@);
        if looks_like_ipv4(&t) {
            out.push(t);
            assert(out@.map_values(|x: Vec<char>| x@) =~= before.push(trimmed[i as int]));
        }
        i = i + 1;
    }
    assert(trimmed.take(parts.len() as int) =~= trimmed);
    out
}

/// The first candidate that starts with `prefix`, else the first candidate.
pub open spec fn pick_preferred_spec(cands: Seq<Seq<char>>, prefix: Seq<char>) -> Option<Seq<char>> {
    if exists|i: int| 0 <= i < cands.len() && occurs_at(#[trigger] cands[i], 0, prefix) {
        let i = choose|i: int|
            0 <= i < cands.len() && occurs_at(#[trigger] cands[i], 0, prefix) && forall|j: int|
                0 <= j < i ==> !occurs_at(#[trigger] cands[j], 0, prefix);
        Some(cands[i])
    } else if cands.len() > 0 {
        Some(cands[0])
    } else {
        None
    }
}

pub fn pick_preferred_ipv4(cands: &Vec<Vec<char>>, prefix: &Vec<char>) -> (r: Option<Vec<char>>)
    ensures
        match r {
            Some(s) => pick_preferred_spec(cands@.map_values(|x: Vec<char>| x@), prefix@) == Some(s@),
            None => pick_preferred_spec(cands@.map_values(|x: Vec<char>| x@), prefix@) is None,
        },
{
    let ghost cs = cands@.map_values(|x: Vec<char>| x@);
    let mut i: usize = 0;
    while i < cands.len()
        invariant
            i <= cands.len(),
            cs == cands@.map_values(|x: Vec<char>| x@),
            forall|j: int| 0 <= j < i ==> !occurs_at(#[trigger] cs[j], 0, prefix@),
        decreases cands.len() - i,
    {
        if occurs_at_exec(&cands[i], 0, prefix) {
            assert(occurs_at(cs[i as int], 0, prefix@));
            let ghost w = choose|w: int|
                0 <= w < cs.len() && occurs_at(#[trigger] cs[w], 0, prefix@) && forall|j: int|
                    0 <= j < w ==> !occurs_at(#[trigger] cs[j], 0, prefix@);
            proof {
                assert(0 <= i < cs.len() && occurs_at(cs[i as int], 0, prefix@) && forall|j: int|
                    0 <= j < i ==> !occurs_at(#[trigger] cs[j], 0, prefix@));
                if w < i {
                    assert(!occurs_at(cs[w], 0, prefix@));
                } else if w > i {
                    assert(!occurs_at(cs[i as int], 0, prefix@));
                }
            }
            return Some(cands[i].clone());
        }
        i = i + 1;
    }
    if cands.len() > 0 {
        Some(cands[0].clone())
    } else {
        None
    }
}

// ---------------------------------------------------------------------
// Where a node can be reached
// ---------------------------------------------------------------------

pub open spec fn dyn_keys() -> Seq<Seq<char>> {
    seq!["DynamicMeta"@, "dynamic_meta"@, "Dynamic"@, "dynamic"@]
}

pub open spec fn attr_keys() -> Seq<Seq<char>> {
    seq!["Attributes"@, "attributes"@]
}

pub open spec fn client_ip_keys() -> Seq<Seq<char>> {
    seq!["client_ip"@, "client-ip"@, "clientip"@, "clientIp"@]
}

pub open spec fn attr_ip_keys() -> Seq<Seq<char>> {
    seq!["meta.client_ip"@, "meta.client-ip"@]
}

pub open spec fn net_keys() -> Seq<Seq<char>> {
    seq!["unique.network.ip-addresses"@, "unique.network.ip-address"@, "network.ip-address"@]
}

pub open spec fn addr_keys() -> Seq<Seq<char>> {
    seq!["Address"@, "address"@, "HttpAddr"@, "http_addr"@]
}

/// `Some(ip)` when `ip` is present and an IPv4 address.
pub open spec fn if_ipv4(ip: Option<Seq<char>>) -> Option<Seq<char>> {
    match ip {
        Some(x) => if looks_like_ipv4_spec(x) {
            Some(x)
        } else {
            None
        },
        None => None,
    }
}

/// The IPv4 addresses listed under the network attributes from key `i` on.
pub open spec fn net_ips_from(a: Map<Seq<char>, Option<Seq<char>>>, i: int) -> Seq<Seq<char>>
    decreases net_keys().len() - i,
{
    if i < 0 || i >= net_keys().len() {
        Seq::empty()
    } else {
        let here = if a.contains_key(net_keys()[i]) && a[net_keys()[i]] is Some {
            ipv4s_from_list_spec(a[net_keys()[i]]->0)
        } else {
            Seq::empty()
        };
        here + net_ips_from(a, i + 1)
    }
}

/// The address fields from key `i` on: the first that is an IPv4 address,
/// or whose part before `:` is.
pub open spec fn addr_ip_from(fs: Map<Seq<char>, FieldV>, i: int) -> Option<Seq<char>>
    decreases addr_keys().len() - i,
{
    if i < 0 || i >= addr_keys().len() {
        None
    } else {
        let cand = match nonblank_field(fs, addr_keys()[i]) {
            Some(ip) => if looks_like_ipv4_spec(ip) {
                Some(ip)
            } else {
                let host = ip.take(crate::text::find_from(ip, one_of(seq![':']), 0));
                if looks_like_ipv4_spec(host) {
                    Some(host)
                } else {
                    None
                }
            },
            None => None,
        };
        if cand is Some {
            cand
        } else {
            addr_ip_from(fs, i + 1)
        }
    }
}

/// The host IP of a node: its dynamic `client_ip`; else (when it has
/// attributes) a `meta.client_ip` attribute, or a network address
/// preferring one that starts with `prefix`; else its address field.
pub open spec fn client_ip_spec(fs: Map<Seq<char>, FieldV>, prefix: Seq<char>) -> Option<Seq<char>> {
    let dyn_ip = match obj_field_from(fs, dyn_keys(), 0) {
        Some(m) => if_ipv4(member(m, client_ip_keys())),
        None => None,
    };
    let attr_ip = match obj_field_from(fs, attr_keys(), 0) {
        Some(a) => if if_ipv4(member(a, attr_ip_keys())) is Some {
            if_ipv4(member(a, attr_ip_keys()))
        } else {
            pick_preferred_spec(net_ips_from(a, 0), prefix)
        },
        None => None,
    };
    if dyn_ip is Some {
        dyn_ip
    } else if attr_ip is Some {
        attr_ip
    } else {
        addr_ip_from(fs, 0)
    }
}

fn if_ipv4_exec(ip: Option<Vec<char>>) -> (r: Option<Vec<char>>)
    ensures
        match r {
            Some(x) => if_ipv4(match ip { Some(y) => Some(y@), None => None }) == Some(x@),
            None => if_ipv4(match ip { Some(y) => Some(y@), None => None }) is None,
        },
{
    match ip {
        Some(x) => if looks_like_ipv4(&x) {
            Some(x)
        } else {
            None
        },
        None => None,
    }
}

fn net_ips(a: &StrMap<Option<String>>) -> (r: Vec<Vec<char>>)
    requires
        a.wf(),
    ensures
        r@.map_values(|x: Vec<char>| x@) == net_ips_from(obj_view(*a), 0),
{
    let keys = key_list(&["unique.network.ip-addresses", "unique.network.ip-address", "network.ip-address"]);
    assert(kviews(keys) =~= net_keys());
    let mut out: Vec<Vec<char>> = Vec::new();
    let mut i: usize = 0;
    while i < keys.len()
        invariant
            i <= keys.len(),
            a.wf(),
            kviews(keys) == net_keys(),
            out@.map_values(|x: Vec<char>| x@) + net_ips_from(obj_view(*a), i as int) == net_ips_from(obj_view(*a), 0),
        decreases keys.len() - i,
    {
        assert(kviews(keys)[i as int] == keys@[i as int]@);
        let ghost before = out@.map_values(|x: Vec<char>| x@);
        match a.get(&keys[i]) {
            Some(Some(raw)) => {
                let ips = ipv4s_from_list(&chars_of(raw.as_str()));
                let mut j: usize = 0;
                while j < ips.len()
                    invariant
                        j <= ips.len(),
                        out@.map_values(|x: Vec<char>| x@) == before + ips@.map_values(|x: Vec<char>| x@).take(j as int),
                    decreases ips.len() - j,
                {
                    let ghost b2 = out@.map_values(|x: Vec<char>| x@);
                    out.push(ips[j].clone());
                    assert(out@.map_values(|x: Vec<char>| x@) =~= b2.push(ips@[j as int]@));
                    j = j + 1;
                    assert(out@.map_values(|x: Vec<char>| x@) =~= before + ips@.map_values(|x: Vec<char>| x@).take(j as int));
                }
                assert(ips@.map_values(|x: Vec<char>| x@).take(ips.len() as int) =~= ips@.map_values(|x: Vec<char>| x@));
                assert(before + ips@.map_values(|x: Vec<char>| x@) + net_ips_from(obj_view(*a), i + 1) =~= before + net_ips_from(obj_view(*a), i as int));
            },
            _ => {
                assert(net_ips_from(obj_view(*a), i as int) =~= net_ips_from(obj_view(*a), i + 1));
            },
        }
        i = i + 1;
    }
    assert(out@.map_values(|x: Vec<char>| x@) + Seq::<Seq<char>>::empty() =~= out@.map_values(|x: Vec<char>| x@));
    out
}

fn addr_ip(node: &NomadNode) -> (r: Option<Vec<char>>)
    requires
        node.wf(),
    ensures
        match r {
            Some(x) => addr_ip_from(node.fv(), 0) == Some(x@),
            None => addr_ip_from(node.fv(), 0) is None,
        },
{
    let keys = key_list(&["Address", "address", "HttpAddr", "http_addr"]);
    assert(kviews(keys) =~= addr_keys());
    let mut i: usize = 0;
    while i < keys.len()
        invariant
            i <= keys.len(),
            node.wf(),
            kviews(keys) == addr_keys(),
            addr_ip_from(node.fv(), i as int) == addr_ip_from(node.fv(), 0),
        decreases keys.len() - i,
    {
        let one = vec![keys[i].clone()];
        assert(kviews(one) =~= seq![addr_keys()[i as int]]);
        assert(str_field(node.fv(), kviews(one)) == nonblank_field(node.fv(), addr_keys()[i as int])) by {
            assert(str_field_from(node.fv(), kviews(one), 1) is None);
        }
        match str_field_exec(&node.fields, &one) {
            Some(ip) => {
                if looks_like_ipv4(&ip) {
                    return Some(ip);
                }
                let colon = vec![':'];
                assert(colon@ =~= seq![':']);
                let e = crate::text::find_one_of(&ip, &colon, 0);
                let host = slice(&ip, 0, e);
                assert(host@ =~= ip@.take(e as int));
                if looks_like_ipv4(&host) {
                    return Some(host);
                }
            },
            None => {},
        }
        i = i + 1;
    }
    None
}

/// The host IP of a node, preferring network addresses that start with `prefix`.
pub fn node_client_ip_with_prefix(node: &NomadNode, prefix: &str) -> (r: Option<String>)
    requires
        node.wf(),
    ensures
        opt_view(r) == client_ip_spec(node.fv(), prefix@),
{
    let dk = key_list(&["DynamicMeta", "dynamic_meta", "Dynamic", "dynamic"]);
    assert(kviews(dk) =~= dyn_keys());
    match obj_field_exec(node, &dk) {
        Some(m) => {
            let ck = key_list(&["client_ip", "client-ip", "clientip", "clientIp"]);
            assert(kviews(ck) =~= client_ip_keys());
            match if_ipv4_exec(member_exec(m, &ck)) {
                Some(ip) => {
                    return Some(string_of(&ip));
                },
                None => {},
            }
        },
        None => {},
    }
    let ak = key_list(&["Attributes", "attributes"]);
    assert(kviews(ak) =~= attr_keys());
    match obj_field_exec(node, &ak) {
        Some(a) => {
            let aik = key_list(&["meta.client_ip", "meta.client-ip"]);
            assert(kviews(aik) =~= attr_ip_keys());
            match if_ipv4_exec(member_exec(a, &aik)) {
                Some(ip) => {
                    return Some(string_of(&ip));
                },
                None => {},
            }
            let ips = net_ips(a);
            match pick_preferred_ipv4(&ips, &chars_of(prefix)) {
                Some(ip) => {
                    return Some(string_of(&ip));
                },
                None => {},
            }
        },
        None => {},
    }
    match addr_ip(node) {
        Some(ip) => Some(string_of(&ip)),
        None => None,
    }
}

// ---------------------------------------------------------------------
// Role and availability
// ---------------------------------------------------------------------

/// The node's `role`, from its dynamic metadata only.
pub open spec fn role_spec(fs: Map<Seq<char>, FieldV>) -> Option<Seq<char>> {
    match obj_field_from(fs, dyn_keys(), 0) {
        Some(m) => member(m, seq!["role"@]),
        None => None,
    }
}

pub fn node_role(node: &NomadNode) -> (r: Option<String>)
    requires
        node.wf(),
    ensures
        opt_view(r) == role_spec(node.fv()),
{
    let dk = key_list(&["DynamicMeta", "dynamic_meta", "Dynamic", "dynamic"]);
    assert(kviews(dk) =~= dyn_keys());
    match obj_field_exec(node, &dk) {
        Some(m) => {
            let rk = key_list(&["role"]);
            assert(kviews(rk) =~= seq!["role"@]);
            match member_exec(m, &rk) {
                Some(r) => Some(string_of(&r)),
                None => None,
            }
        },
        None => None,
    }
}

/// Ready, not draining, and (when it says) eligible for scheduling.
pub open spec fn available_spec(fs: Map<Seq<char>, FieldV>) -> bool {
    let status = match str_field(fs, seq!["Status"@, "status"@]) {
        Some(s) => s,
        None => Seq::empty(),
    };
    &&& crate::text::eq_ignore_ascii_case(status, "ready"@)
    &&& !bool_field_from(fs, seq!["Drain"@, "drain"@], 0)
    &&& match str_field(fs, seq!["SchedulingEligibility"@, "scheduling_eligibility"@]) {
        Some(e) => crate::text::eq_ignore_ascii_case(e, "eligible"@),
        None => true,
    }
}

pub fn node_is_available(node: &NomadNode) -> (b: bool)
    requires
        node.wf(),
    ensures
        b == available_spec(node.fv()),
{
    let sk = key_list(&["Status", "status"]);
    assert(kviews(sk) =~= seq!["Status"@, "status"@]);
    let status = match str_field_exec(&node.fields, &sk) {
        Some(s) => s,
        None => Vec::new(),
    };
    if !crate::text::eq_ignore_ascii_case_exec(&status, &chars_of("ready")) {
        return false;
    }
    let dk = key_list(&["Drain", "drain"]);
    assert(kviews(dk) =~= seq!["Drain"@, "drain"@]);
    if bool_field_exec(&node.fields, &dk) {
        return false;
    }
    let ek = key_list(&["SchedulingEligibility", "scheduling_eligibility"]);
    assert(kviews(ek) =~= seq!["SchedulingEligibility"@, "scheduling_eligibility"@]);
    match str_field_exec(&node.fields, &ek) {
        Some(e) => crate::text::eq_ignore_ascii_case_exec(&e, &chars_of("eligible")),
        None => true,
    }
}

pub fn node_role_matches(node: &NomadNode, role: &str) -> (b: bool)
    requires
        node.wf(),
    ensures
        b == (role_spec(node.fv()) == Some(role@)),
{
    match node_role(node) {
        Some(r) => text_eq_exec(&chars_of(r.as_str()), &chars_of(role)),
        None => false,
    }
}

// ---------------------------------------------------------------------
// Dynamic metadata and node details
// ---------------------------------------------------------------------

/// The dynamic metadata of a `/v1/client/metadata` response: the members of
/// its `Dynamic` object (or `dynamic`) that hold strings that are not
/// blank, trimmed.
pub open spec fn dynamic_meta_spec(fs: Map<Seq<char>, FieldV>) -> Map<Seq<char>, Option<Seq<char>>> {
    match obj_field_from(fs, seq!["Dynamic"@, "dynamic"@], 0) {
        Some(m) => Map::new(
            |k: Seq<char>| nonblank_member(m, k) is Some,
            |k: Seq<char>| nonblank_member(m, k),
        ),
        None => Map::empty(),
    }
}

pub fn parse_dynamic_meta_map(resp: &NomadNode) -> (r: StrMap<Option<String>>)
    requires
        resp.wf(),
    ensures
        r.wf(),
        obj_view(r) == dynamic_meta_spec(resp.fv()),
{
    let mut out: StrMap<Option<String>> = StrMap::new();
    let keys = key_list(&["Dynamic", "dynamic"]);
    assert(kviews(keys) =~= seq!["Dynamic"@, "dynamic"@]);
    let m = match obj_field_exec(resp, &keys) {
        Some(m) => m,
        None => {
            assert(obj_view(out) =~= Map::<Seq<char>, Option<Seq<char>>>::empty());
            return out;
        },
    };
    let ghost mv = obj_view(*m);
    let mut i: usize = 0;
    while i < m.len()
        invariant
            i <= m.pairs().len(),
            m.wf(),
            out.wf(),
            mv == obj_view(*m),
            forall|k: Seq<char>| #[trigger] obj_view(out).contains_key(k) <==> (nonblank_member(mv, k) is Some && exists|j: int| 0 <= j < i && m.pairs()[j].0 == k),
            forall|k: Seq<char>| #[trigger] obj_view(out).contains_key(k) ==> obj_view(out)[k] == nonblank_member(mv, k),
        decreases m.pairs().len() - i,
    {
        proof {
            m.lemma_view_entry(i as int);
        }
        let k = m.key_at(i);
        let ghost before = obj_view(out);
        match m.value_at(i) {
            Some(s) => {
                let t = trim_chars(&chars_of(s.as_str()));
                if t.len() > 0 {
                    let kk = k.clone();
                    out.insert(kk, Some(string_of(&t)));
                    assert(obj_view(out) =~= before.insert(k@, Some(t@)));
                }
            },
            None => {},
        }
        proof {
            assert forall|q: Seq<char>| #[trigger] obj_view(out).contains_key(q) <==> (nonblank_member(mv, q) is Some && exists|j: int| 0 <= j < i + 1 && m.pairs()[j].0 == q) by {
                if q == k@ {
                    assert(0 <= i < i + 1 && m.pairs()[i as int].0 == q);
                }
                if exists|j: int| 0 <= j < i + 1 && m.pairs()[j].0 == q {
                    let j = choose|j: int| 0 <= j < i + 1 && m.pairs()[j].0 == q;
                    if j < i {
                        assert(exists|j: int| 0 <= j < i && m.pairs()[j].0 == q);
                    }
                }
            }
        }
        i = i + 1;
    }
    proof {
        assert forall|q: Seq<char>| nonblank_member(mv, q) is Some implies exists|j: int| 0 <= j < i && #[trigger] m.pairs()[j].0 == q by {
            m.lemma_view_key(q);
        }
    }
    assert(obj_view(out) =~= dynamic_meta_spec(resp.fv()));
    out
}

/// Records a node's dynamic metadata on it, under `DynamicMeta`; nothing
/// changes when there is none or the node is not an object.
pub fn attach_dynamic_meta(stub: &mut NomadNode, dynamic: StrMap<Option<String>>)
    requires
        old(stub).wf(),
        dynamic.wf(),
    ensures
        final(stub).wf(),
        final(stub).is_object == old(stub).is_object,
        final(stub).fv() == if obj_view(dynamic) == Map::<Seq<char>, Option<Seq<char>>>::empty()
            || !old(stub).is_object {
            old(stub).fv()
        } else {
            old(stub).fv().insert("DynamicMeta"@, FieldV::Obj(obj_view(dynamic)))
        },
{
    if dynamic.len() == 0 {
        assert(obj_view(dynamic) =~= Map::<Seq<char>, Option<Seq<char>>>::empty());
        return;
    }
    proof {
        dynamic.lemma_view_entry(0);
        assert(obj_view(dynamic).contains_key(dynamic.pairs()[0].0));
    }
    if !stub.is_object {
        return;
    }
    let ghost old_fv = stub.fv();
    let f = NodeField::Obj(dynamic);
    let ghost fv = f@;
    stub.fields.insert(chars_of("DynamicMeta"), f);
    assert(stub.fv() =~= old_fv.insert("DynamicMeta"@, fv));
}

/// `m` with field `k` taken from `d`, when `d` has it.
pub open spec fn copy_field(m: Map<Seq<char>, FieldV>, k: Seq<char>, d: Map<Seq<char>, FieldV>) -> Map<Seq<char>, FieldV> {
    if d.contains_key(k) {
        m.insert(k, d[k])
    } else {
        m
    }
}

fn copy_field_exec(stub: &mut NomadNode, detail: &NomadNode, key: &str)
    requires
        old(stub).wf(),
        old(stub).is_object,
        detail.wf(),
    ensures
        final(stub).wf(),
        final(stub).is_object,
        final(stub).fv() == copy_field(old(stub).fv(), key@, detail.fv()),
{
    let k = chars_of(key);
    let ghost before = stub.fv();
    match detail.fields.get(&k) {
        Some(f) => {
            let c = clone_field(f);
            let ghost cv = c@;
            stub.fields.insert(k, c);
            assert(stub.fv() =~= before.insert(key@, cv));
        },
        None => {},
    }
}

/// Copies a node detail's attributes (`Attributes`, then `attributes`) onto
/// the node; nothing changes when the node is not an object.
pub fn merge_node_detail(stub: &mut NomadNode, detail: &NomadNode)
    requires
        old(stub).wf(),
        detail.wf(),
    ensures
        final(stub).wf(),
        final(stub).is_object == old(stub).is_object,
        final(stub).fv() == if !old(stub).is_object {
            old(stub).fv()
        } else {
            copy_field(copy_field(old(stub).fv(), "Attributes"@, detail.fv()), "attributes"@, detail.fv())
        },
{
    if !stub.is_object {
        return;
    }
    copy_field_exec(stub, detail, "Attributes");
    copy_field_exec(stub, detail, "attributes");
}

// ---------------------------------------------------------------------
// Hosts
// ---------------------------------------------------------------------

/// The role nodes must carry to host validators unless told otherwise.
pub const CHAIN_NOMAD_META_ROLE: &'static str = "validators";

/// The prefix preferred among a node's network addresses unless told otherwise.
pub const DEFAULT_HOST_IP_PREFIX: &'static str = "192.168.20.";

/// A node that can host a validator.
pub struct NomadHost {
    pub id: String,
    pub name: String,
    pub status: String,
    pub datacenter: String,
    pub role: String,
    pub client_ip: String,
}

pub ghost struct HostV {
    pub id: Seq<char>,
    pub name: Seq<char>,
    pub status: Seq<char>,
    pub datacenter: Seq<char>,
    pub role: Seq<char>,
    pub client_ip: Seq<char>,
}

impl View for NomadHost {
    type V = HostV;

    open spec fn view(&self) -> HostV {
        HostV {
            id: self.id@,
            name: self.name@,
            status: self.status@,
            datacenter: self.datacenter@,
            role: self.role@,
            client_ip: self.client_ip@,
        }
    }
}

pub open spec fn or_empty(o: Option<Seq<char>>) -> Seq<char> {
    match o {
        Some(s) => s,
        None => Seq::empty(),
    }
}

/// The host a node describes, with the given role and IP.
pub open spec fn host_spec(fs: Map<Seq<char>, FieldV>, role: Seq<char>, ip: Seq<char>) -> HostV {
    HostV {
        id: or_empty(str_field(fs, seq!["ID"@, "id"@])),
        name: or_empty(str_field(fs, seq!["Name"@, "name"@])),
        status: or_empty(str_field(fs, seq!["Status"@, "status"@])),
        datacenter: or_empty(str_field(fs, seq!["Datacenter"@, "datacenter"@])),
        role: role,
        client_ip: ip,
    }
}

fn field_or_empty(node: &NomadNode, a: &str, b: &str) -> (r: String)
    requires
        node.wf(),
    ensures
        r@ == or_empty(str_field(node.fv(), seq![a@, b@])),
{
    let keys = vec![chars_of(a), chars_of(b)];
    assert(kviews(keys) =~= seq![a@, b@]);
    match str_field_exec(&node.fields, &keys) {
        Some(s) => string_of(&s),
        None => String::new(),
    }
}

pub fn nomad_host_from_node(node: &NomadNode, role: &str, client_ip: String) -> (h: NomadHost)
    requires
        node.wf(),
    ensures
        h@ == host_spec(node.fv(), role@, client_ip@),
{
    NomadHost {
        id: field_or_empty(node, "ID", "id"),
        name: field_or_empty(node, "Name", "name"),
        status: field_or_empty(node, "Status", "status"),
        datacenter: field_or_empty(node, "Datacenter", "datacenter"),
        role: String::from_str(role),
        client_ip,
    }
}

/// The host a node offers for `role`: when it is available, carries the
/// role and has a host IP.
pub open spec fn parse_host_spec(fs: Map<Seq<char>, FieldV>, role: Seq<char>, prefix: Seq<char>) -> Option<HostV> {
    if !available_spec(fs) || role_spec(fs) != Some(role) {
        None
    } else {
        match client_ip_spec(fs, prefix) {
            Some(ip) => Some(host_spec(fs, role, ip)),
            None => None,
        }
    }
}

pub fn parse_nomad_host(node: &NomadNode, role: &str, prefix: &str) -> (r: Option<NomadHost>)
    requires
        node.wf(),
    ensures
        match r {
            Some(h) => parse_host_spec(node.fv(), role@, prefix@) == Some(h@),
            None => parse_host_spec(node.fv(), role@, prefix@) is None,
        },
{
    if !node_is_available(node) || !node_role_matches(node, role) {
        return None;
    }
    match node_client_ip_with_prefix(node, prefix) {
        Some(ip) => Some(nomad_host_from_node(node, role, ip)),
        None => None,
    }
}

/// The node's ID (`ID`, or `id`), when it has one.
pub fn node_id(node: &NomadNode) -> (r: Option<String>)
    requires
        node.wf(),
    ensures
        opt_view(r) == str_field(node.fv(), seq!["ID"@, "id"@]),
{
    let keys = vec![chars_of("ID"), chars_of("id")];
    assert(kviews(keys) =~= seq!["ID"@, "id"@]);
    match str_field_exec(&node.fields, &keys) {
        Some(s) => Some(string_of(&s)),
        None => None,
    }
}

// ---------------------------------------------------------------------
// Roles
// ---------------------------------------------------------------------

/// A role, trimmed; blank, or the singular `validator` in any ASCII case,
/// means `validators`.
pub open spec fn normalize_spec(role: Seq<char>) -> Seq<char> {
    let t = trim(role);
    if t.len() == 0 || crate::text::eq_ignore_ascii_case(t, "validator"@) {
        "validators"@
    } else {
        t
    }
}

pub fn normalize_meta_role(role: &str) -> (r: String)
    ensures
        r@ == normalize_spec(role@),
{
    let t = trim_chars(&chars_of(role));
    if t.len() == 0 || crate::text::eq_ignore_ascii_case_exec(&t, &chars_of("validator")) {
        String::from_str("validators")
    } else {
        string_of(&t)
    }
}

/// Normalizing a role twice gives what normalizing it once gives.
pub proof fn lemma_normalize_idempotent(role: Seq<char>)
    ensures
        normalize_spec(normalize_spec(role)) == normalize_spec(role),
{
    reveal_strlit("validators");
    reveal_strlit("validator");
    let n = normalize_spec(role);
    let t = trim(role);
    crate::text::lemma_trim_idempotent(role);
    if t.len() == 0 || crate::text::eq_ignore_ascii_case(t, "validator"@) {
        assert(n == "validators"@);
        assert(trim(n) =~= n) by {
            lemma_trim_of_word(n);
        }
        assert(!crate::text::eq_ignore_ascii_case(n, "validator"@));
    }
}

/// A text that neither starts nor ends with whitespace is its own trim.
pub proof fn lemma_trim_of_word(s: Seq<char>)
    requires
        s.len() > 0,
        !crate::text::is_ws(s[0]),
        !crate::text::is_ws(s[s.len() - 1]),
    ensures
        trim(s) == s,
{
    assert(crate::text::skip_ws(s, 0) == 0);
    assert(crate::text::rskip_ws(s, s.len() as int) == s.len());
    assert(s.subrange(0, s.len() as int) =~= s);
}

/// The role a host scan looks for, or why there is none.
pub fn scan_role(meta_role: &str) -> (r: Result<String, String>)
    ensures
        match r {
            Ok(role) => role@ == normalize_spec(meta_role@) && role@.len() > 0,
            Err(msg) => normalize_spec(meta_role@).len() == 0 && msg@ == "meta.role must not be empty"@,
        },
{
    let role = normalize_meta_role(meta_role);
    if role.as_str().unicode_len() == 0 {
        Err(String::from_str("meta.role must not be empty"))
    } else {
        Ok(role)
    }
}

// ---------------------------------------------------------------------
// Encoding a node ID for a query string
// ---------------------------------------------------------------------

pub open spec fn unreserved(c: char) -> bool {
    ('A' <= c && c <= 'Z') || ('a' <= c && c <= 'z') || ('0' <= c && c <= '9') || c == '-' || c
        == '_' || c == '.' || c == '~'
}

pub open spec fn hex_digit(n: nat) -> char {
    if n < 10 {
        ((n + 48) as u32) as char
    } else {
        ((n + 55) as u32) as char
    }
}

/// A character as it stands in a query string: itself when unreserved,
/// else `%` and two upper-case hex digits of its code's low byte.
pub open spec fn encode_char(c: char) -> Seq<char> {
    if unreserved(c) {
        seq![c]
    } else {
        let b = (c as u32 % 256) as nat;
        seq!['%', hex_digit(b / 16), hex_digit(b % 16)]
    }
}

pub open spec fn url_encode_spec(s: Seq<char>) -> Seq<char>
    decreases s.len(),
{
    if s.len() == 0 {
        Seq::empty()
    } else {
        url_encode_spec(s.drop_last()) + encode_char(s.last())
    }
}

fn hex_digit_exec(n: u32) -> (c: char)
    requires
        n < 16,
    ensures
        c == hex_digit(n as nat),
{
    if n < 10 {
        ((n + 48) as u8) as char
    } else {
        ((n + 55) as u8) as char
    }
}

pub fn urlencoding_encode(s: &str) -> (r: String)
    ensures
        r@ == url_encode_spec(s@),
{
    let v = chars_of(s);
    let mut out: Vec<char> = Vec::new();
    let mut i: usize = 0;
    while i < v.len()
        invariant
            i <= v.len(),
            out@ == url_encode_spec(v@.take(i as int)),
        decreases v.len() - i,
    {
        let c = v[i];
        assert(v@.take(i + 1).drop_last() =~= v@.take(i as int));
        assert(v@.take(i + 1).last() == c);
        if ('A' <= c && c <= 'Z') || ('a' <= c && c <= 'z') || ('0' <= c && c <= '9') || c == '-'
            || c == '_' || c == '.' || c == '~' {
            out.push(c);
        } else {
            let b: u32 = (c as u32) % 256;
            let ghost before = out@;
            out.push('%');
            out.push(hex_digit_exec(b / 16));
            out.push(hex_digit_exec(b % 16));
            assert(out@ =~= before + encode_char(c));
        }
        i = i + 1;
    }
    assert(v@.take(v.len() as int) =~= v@);
    string_of(&out)
}

// ---------------------------------------------------------------------
// Choosing one host per IP
// ---------------------------------------------------------------------

pub fn clone_host(h: &NomadHost) -> (r: NomadHost)
    ensures
        r@ == h@,
{
    NomadHost {
        id: h.id.clone(),
        name: h.name.clone(),
        status: h.status.clone(),
        datacenter: h.datacenter.clone(),
        role: h.role.clone(),
        client_ip: h.client_ip.clone(),
    }
}

/// `hs[j]` is the host chosen for its IP: no host with that IP has a smaller
/// name, and of those with the same name it comes first.
pub open spec fn is_chosen(hs: Seq<HostV>, j: int) -> bool {
    forall|i: int| 0 <= i < hs.len() && (#[trigger] hs[i]).client_ip == hs[j].client_ip ==> !crate::text::text_lt(hs[i].name, hs[j].name) && (hs[i].name == hs[j].name ==> j <= i)
}

/// One host per IP, in increasing IP order: what sorting by (IP, name),
/// stably, and then dropping hosts whose IP repeats the previous one's, gives.
pub open spec fn chosen_hosts(hs: Seq<HostV>, os: Seq<HostV>) -> bool {
    &&& forall|a: int, b: int| 0 <= a < b < os.len() ==> crate::text::text_lt((#[trigger] os[a]).client_ip, (#[trigger] os[b]).client_ip)
    &&& forall|k: int| 0 <= k < os.len() ==> chosen_in(hs, #[trigger] os[k])
    &&& forall|j: int| 0 <= j < hs.len() ==> ip_listed(os, (#[trigger] hs[j]).client_ip)
}

/// `h` is the host chosen for its IP among `hs`.
pub open spec fn chosen_in(hs: Seq<HostV>, h: HostV) -> bool {
    exists|j: int| 0 <= j < hs.len() && hs[j] == h && is_chosen(hs, j)
}

/// Some host of `os` has the IP `ip`.
pub open spec fn ip_listed(os: Seq<HostV>, ip: Seq<char>) -> bool {
    exists|k: int| 0 <= k < os.len() && os[k].client_ip == ip
}

pub open spec fn host_views(v: Vec<NomadHost>) -> Seq<HostV> {
    v@.map_values(|h: NomadHost| h@)
}

/// Sorts hosts by IP (then name) and keeps the first host of each IP.
pub fn select_hosts(hosts: &Vec<NomadHost>) -> (r: Vec<NomadHost>)
    ensures
        chosen_hosts(host_views(*hosts), host_views(r)),
{
    let ghost hs = host_views(*hosts);
    let mut best: StrMap<NomadHost> = StrMap::new();
    let ghost mut idx: Map<Seq<char>, int> = Map::empty();
    let mut i: usize = 0;
    while i < hosts.len()
        invariant
            i <= hosts.len(),
            hs == host_views(*hosts),
            best.wf(),
            forall|ip: Seq<char>| #[trigger] best@.contains_key(ip) <==> exists|j: int| 0 <= j < i && hs[j].client_ip == ip,
            forall|ip: Seq<char>| #[trigger] best@.contains_key(ip) ==> {
                &&& idx.contains_key(ip)
                &&& 0 <= idx[ip] < i
                &&& hs[idx[ip]].client_ip == ip
                &&& best@[ip]@ == hs[idx[ip]]
                &&& forall|j: int| 0 <= j < i && (#[trigger] hs[j]).client_ip == ip ==> !crate::text::text_lt(hs[j].name, hs[idx[ip]].name) && (hs[j].name == hs[idx[ip]].name ==> idx[ip] <= j)
            },
        decreases hosts.len() - i,
    {
        let h = &hosts[i];
        assert(hs[i as int] == h@);
        let ip = chars_of(h.client_ip.as_str());
        let ghost ipv = ip@;
        let ghost before = best@;
        let replace = match best.get(&ip) {
            Some(cur) => crate::text::text_lt_exec(&chars_of(h.name.as_str()), &chars_of(cur.name.as_str())),
            None => true,
        };
        if replace {
            proof {
                if before.contains_key(ipv) {
                    let c = idx[ipv];
                    assert forall|j: int| 0 <= j < i && (#[trigger] hs[j]).client_ip == ipv implies !crate::text::text_lt(hs[j].name, h@.name) by {
                        crate::text::lemma_text_lt_trichotomy(hs[j].name, hs[c].name);
                        if crate::text::text_lt(hs[j].name, h@.name) {
                            if hs[j].name == hs[c].name {
                                crate::text::lemma_text_lt_trichotomy(h@.name, hs[c].name);
                            } else {
                                crate::text::lemma_text_lt_transitive(hs[c].name, hs[j].name, h@.name);
                                crate::text::lemma_text_lt_transitive(h@.name, hs[c].name, h@.name);
                                crate::text::lemma_text_lt_irreflexive(h@.name);
                            }
                        }
                    }
                    assert forall|j: int| 0 <= j < i && (#[trigger] hs[j]).client_ip == ipv && hs[j].name == h@.name implies false by {
                        crate::text::lemma_text_lt_trichotomy(hs[j].name, hs[c].name);
                        crate::text::lemma_text_lt_irreflexive(h@.name);
                        if hs[j].name != hs[c].name {
                            crate::text::lemma_text_lt_transitive(h@.name, hs[c].name, h@.name);
                        }
                    }
                }
                idx = idx.insert(ipv, i as int);
                crate::text::lemma_text_lt_irreflexive(h@.name);
            }
            best.insert(ip, clone_host(h));
        } else {
            proof {
                crate::text::lemma_text_lt_trichotomy(h@.name, before[ipv]@.name);
            }
        }
        proof {
            assert forall|q: Seq<char>| #[trigger] best@.contains_key(q) <==> exists|j: int| 0 <= j < i + 1 && hs[j].client_ip == q by {
                if q == ipv {
                    assert(0 <= i < i + 1 && hs[i as int].client_ip == q);
                }
                if exists|j: int| 0 <= j < i + 1 && hs[j].client_ip == q {
                    let j = choose|j: int| 0 <= j < i + 1 && hs[j].client_ip == q;
                    if j < i {
                        assert(exists|j: int| 0 <= j < i && hs[j].client_ip == q);
                    }
                }
            }
        }
        i = i + 1;
    }
    let ghost final_map = best@;
    let ghost ps = best.pairs();
    proof {
        assert forall|k: int| 0 <= k < ps.len() implies ps[k].1@ == hs[idx[ps[k].0]] && ps[k].1@.client_ip == ps[k].0 && best@.contains_key(ps[k].0) by {
            best.lemma_view_entry(k);
        }
        assert forall|j: int| 0 <= j < hs.len() implies exists|k: int| 0 <= k < ps.len() && #[trigger] ps[k].0 == (#[trigger] hs[j]).client_ip by {
            assert(best@.contains_key(hs[j].client_ip));
            best.lemma_view_key(hs[j].client_ip);
        }
    }
    let vals = best.into_values();
    let ghost os = host_views(vals);
    assert(os.len() == ps.len());
    assert forall|k: int| 0 <= k < os.len() implies #[trigger] os[k] == ps[k].1@ by {
        assert(vals@[k] == ps[k].1);
    }
    assert forall|a: int, b: int| 0 <= a < b < os.len() implies crate::text::text_lt((#[trigger] os[a]).client_ip, (#[trigger] os[b]).client_ip) by {
        assert(os[a] == ps[a].1@);
        assert(os[b] == ps[b].1@);
    }
    assert forall|k: int| 0 <= k < os.len() implies chosen_in(hs, #[trigger] os[k]) by {
        assert(os[k] == ps[k].1@);
        let ip = ps[k].0;
        let j = idx[ip];
        assert(os[k] == hs[j]);
        assert(is_chosen(hs, j));
    }
    assert forall|j: int| 0 <= j < hs.len() implies ip_listed(os, (#[trigger] hs[j]).client_ip) by {
        let k = choose|k: int| 0 <= k < ps.len() && #[trigger] ps[k].0 == hs[j].client_ip;
        assert(os[k] == ps[k].1@);
    }
    assert(os == host_views(vals));
    assert(chosen_hosts(hs, os));
    vals
}

// ---------------------------------------------------------------------
// Scanning the nodes for hosts
// ---------------------------------------------------------------------

/// A node seen in a scan: one that is not available, or an available one
/// (with its dynamic metadata and details merged in).
pub enum ScanEntry {
    Unavailable,
    Candidate(NomadNode),
}

/// What a scan saw: nodes in all, available ones, available ones with the
/// role, and available ones with a host IP.
pub struct ScanStats {
    pub total: usize,
    pub ready: usize,
    pub matched: usize,
    pub with_ip: usize,
}

pub open spec fn entry_wf(e: ScanEntry) -> bool {
    match e {
        ScanEntry::Candidate(n) => n.wf(),
        ScanEntry::Unavailable => true,
    }
}

pub open spec fn count_ready(es: Seq<ScanEntry>) -> nat
    decreases es.len(),
{
    if es.len() == 0 {
        0
    } else {
        count_ready(es.drop_last()) + if es.last() is Candidate {
            1nat
        } else {
            0nat
        }
    }
}

pub open spec fn count_matched(es: Seq<ScanEntry>, role: Seq<char>) -> nat
    decreases es.len(),
{
    if es.len() == 0 {
        0
    } else {
        count_matched(es.drop_last(), role) + match es.last() {
            ScanEntry::Candidate(n) => if role_spec(n.fv()) == Some(role) {
                1nat
            } else {
                0nat
            },
            ScanEntry::Unavailable => 0nat,
        }
    }
}

pub open spec fn count_with_ip(es: Seq<ScanEntry>, prefix: Seq<char>) -> nat
    decreases es.len(),
{
    if es.len() == 0 {
        0
    } else {
        count_with_ip(es.drop_last(), prefix) + match es.last() {
            ScanEntry::Candidate(n) => if client_ip_spec(n.fv(), prefix) is Some {
                1nat
            } else {
                0nat
            },
            ScanEntry::Unavailable => 0nat,
        }
    }
}

/// The hosts the candidates offer, in scan order.
pub open spec fn scan_hosts(es: Seq<ScanEntry>, role: Seq<char>, prefix: Seq<char>) -> Seq<HostV>
    decreases es.len(),
{
    if es.len() == 0 {
        Seq::empty()
    } else {
        let rest = scan_hosts(es.drop_last(), role, prefix);
        match es.last() {
            ScanEntry::Candidate(n) => match parse_host_spec(n.fv(), role, prefix) {
                Some(h) => rest.push(h),
                None => rest,
            },
            ScanEntry::Unavailable => rest,
        }
    }
}

proof fn lemma_counts_bounded(es: Seq<ScanEntry>, role: Seq<char>, prefix: Seq<char>)
    ensures
        count_ready(es) <= es.len(),
        count_matched(es, role) <= es.len(),
        count_with_ip(es, prefix) <= es.len(),
    decreases es.len(),
{
    if es.len() > 0 {
        lemma_counts_bounded(es.drop_last(), role, prefix);
    }
}

/// The counts a scan reports.
pub fn scan_stats(entries: &Vec<ScanEntry>, role: &str, prefix: &str) -> (st: ScanStats)
    requires
        forall|i: int| 0 <= i < entries.len() ==> entry_wf(#[trigger] entries@[i]),
    ensures
        st.total == entries.len(),
        st.ready == count_ready(entries@),
        st.matched == count_matched(entries@, role@),
        st.with_ip == count_with_ip(entries@, prefix@),
{
    let mut st = ScanStats { total: 0, ready: 0, matched: 0, with_ip: 0 };
    let mut i: usize = 0;
    while i < entries.len()
        invariant
            i <= entries.len(),
            forall|i: int| 0 <= i < entries.len() ==> entry_wf(#[trigger] entries@[i]),
            st.total == i,
            st.ready == count_ready(entries@.take(i as int)),
            st.matched == count_matched(entries@.take(i as int), role@),
            st.with_ip == count_with_ip(entries@.take(i as int), prefix@),
        decreases entries.len() - i,
    {
        let ghost es = entries@.take(i + 1);
        assert(es.drop_last() =~= entries@.take(i as int));
        proof {
            lemma_counts_bounded(entries@.take(i as int), role@, prefix@);
        }
        st.total = st.total + 1;
        match &entries[i] {
            ScanEntry::Candidate(n) => {
                st.ready = st.ready + 1;
                if node_role_matches(n, role) {
                    st.matched = st.matched + 1;
                }
                if node_client_ip_with_prefix(n, prefix).is_some() {
                    st.with_ip = st.with_ip + 1;
                }
            },
            ScanEntry::Unavailable => {},
        }
        i = i + 1;
    }
    assert(entries@.take(entries.len() as int) =~= entries@);
    st
}

/// The message when a scan found no host.
pub open spec fn empty_hosts_message(role: Seq<char>, total: nat, ready: nat, matched: nat, with_ip: nat, prefix: Seq<char>) -> Seq<char> {
    "no available Nomad hosts with dynamic meta role="@ + role
        + " (status=ready, eligible, not draining, with host IP). Scanned "@ + crate::text::decimal(total)
        + " node(s): "@ + crate::text::decimal(ready) + " ready, "@ + crate::text::decimal(matched)
        + " with dynamic meta role="@ + role + ", "@ + crate::text::decimal(with_ip)
        + " with a host IP. Set dynamic metadata via `nomad node meta apply` (role="@ + role
        + ", client_ip, \u{2026}; or a "@ + prefix + "* network address). Preview with: deploy-cli chain hosts --role "@
        + role
}

fn cat(v: Vec<char>, s: &str) -> (r: Vec<char>)
    ensures
        r@ == v@ + s@,
{
    concat(&v, &chars_of(s))
}

fn cat_dec(v: Vec<char>, n: usize) -> (r: Vec<char>)
    ensures
        r@ == v@ + crate::text::decimal(n as nat),
{
    concat(&v, &crate::text::decimal_u64(n as u64))
}

pub fn empty_hosts_error(meta_role: &str, stats: &ScanStats, prefix: &str) -> (r: String)
    ensures
        r@ == empty_hosts_message(meta_role@, stats.total as nat, stats.ready as nat, stats.matched as nat, stats.with_ip as nat, prefix@),
{
    let mut v = chars_of("no available Nomad hosts with dynamic meta role=");
    v = cat(v, meta_role);
    v = cat(v, " (status=ready, eligible, not draining, with host IP). Scanned ");
    v = cat_dec(v, stats.total);
    v = cat(v, " node(s): ");
    v = cat_dec(v, stats.ready);
    v = cat(v, " ready, ");
    v = cat_dec(v, stats.matched);
    v = cat(v, " with dynamic meta role=");
    v = cat(v, meta_role);
    v = cat(v, ", ");
    v = cat_dec(v, stats.with_ip);
    v = cat(v, " with a host IP. Set dynamic metadata via `nomad node meta apply` (role=");
    v = cat(v, meta_role);
    v = cat(v, ", client_ip, \u{2026}; or a ");
    v = cat(v, prefix);
    v = cat(v, "* network address). Preview with: deploy-cli chain hosts --role ");
    v = cat(v, meta_role);
    string_of(&v)
}

/// The hosts of a scan for `role`: one per IP, in IP order; or, when there
/// is none, the message that says what the scan saw.
pub fn collect_hosts(entries: &Vec<ScanEntry>, role: &str, prefix: &str) -> (r: Result<Vec<NomadHost>, String>)
    requires
        forall|i: int| 0 <= i < entries.len() ==> entry_wf(#[trigger] entries@[i]),
    ensures
        match r {
            Ok(hosts) => scan_hosts(entries@, role@, prefix@).len() > 0 && chosen_hosts(scan_hosts(entries@, role@, prefix@), host_views(hosts)),
            Err(msg) => scan_hosts(entries@, role@, prefix@).len() == 0 && msg@ == empty_hosts_message(
                role@,
                entries.len() as nat,
                count_ready(entries@),
                count_matched(entries@, role@),
                count_with_ip(entries@, prefix@),
                prefix@,
            ),
        },
{
    let stats = scan_stats(entries, role, prefix);
    let mut hosts: Vec<NomadHost> = Vec::new();
    let mut i: usize = 0;
    while i < entries.len()
        invariant
            i <= entries.len(),
            forall|i: int| 0 <= i < entries.len() ==> entry_wf(#[trigger] entries@[i]),
            host_views(hosts) == scan_hosts(entries@.take(i as int), role@, prefix@),
        decreases entries.len() - i,
    {
        let ghost es = entries@.take(i + 1);
        assert(es.drop_last() =~= entries@.take(i as int));
        let ghost before = host_views(hosts);
        match &entries[i] {
            ScanEntry::Candidate(n) => {
                match parse_nomad_host(n, role, prefix) {
                    Some(h) => {
                        hosts.push(h);
                        assert(host_views(hosts) =~= before.push(h@));
                    },
                    None => {},
                }
            },
            ScanEntry::Unavailable => {},
        }
        i = i + 1;
    }
    assert(entries@.take(entries.len() as int) =~= entries@);
    if hosts.len() == 0 {
        return Err(empty_hosts_error(role, &stats, prefix));
    }
    Ok(select_hosts(&hosts))
}

// ---------------------------------------------------------------------
// Every host IP is an IPv4 address
// ---------------------------------------------------------------------

proof fn lemma_first_prefixed(cands: Seq<Seq<char>>, prefix: Seq<char>, k: int)
    requires
        0 <= k < cands.len(),
        occurs_at(cands[k], 0, prefix),
    ensures
        exists|i: int|
            0 <= i < cands.len() && occurs_at(#[trigger] cands[i], 0, prefix) && forall|j: int|
                0 <= j < i ==> !occurs_at(#[trigger] cands[j], 0, prefix),
    decreases k,
{
    if exists|j: int| 0 <= j < k && occurs_at(#[trigger] cands[j], 0, prefix) {
        let j = choose|j: int| 0 <= j < k && occurs_at(#[trigger] cands[j], 0, prefix);
        lemma_first_prefixed(cands, prefix, j);
    } else {
        assert(0 <= k < cands.len() && occurs_at(cands[k], 0, prefix) && forall|j: int|
            0 <= j < k ==> !occurs_at(#[trigger] cands[j], 0, prefix));
    }
}

/// The preferred candidate is one of the candidates.
proof fn lemma_pick_member(cands: Seq<Seq<char>>, prefix: Seq<char>)
    ensures
        pick_preferred_spec(cands, prefix) matches Some(x) ==> cands.contains(x),
{
    if exists|i: int| 0 <= i < cands.len() && occurs_at(#[trigger] cands[i], 0, prefix) {
        let k = choose|i: int| 0 <= i < cands.len() && occurs_at(#[trigger] cands[i], 0, prefix);
        lemma_first_prefixed(cands, prefix, k);
        let i = choose|i: int|
            0 <= i < cands.len() && occurs_at(#[trigger] cands[i], 0, prefix) && forall|j: int|
                0 <= j < i ==> !occurs_at(#[trigger] cands[j], 0, prefix);
        assert(cands[i] == cands[i]);
    } else if cands.len() > 0 {
        assert(cands[0] == cands[0]);
    }
}

proof fn lemma_net_ips_ipv4(a: Map<Seq<char>, Option<Seq<char>>>, i: int)
    ensures
        forall|k: int| 0 <= k < net_ips_from(a, i).len() ==> looks_like_ipv4_spec(#[trigger] net_ips_from(a, i)[k]),
    decreases net_keys().len() - i,
{
    if 0 <= i < net_keys().len() {
        lemma_net_ips_ipv4(a, i + 1);
        let here = if a.contains_key(net_keys()[i]) && a[net_keys()[i]] is Some {
            ipv4s_from_list_spec(a[net_keys()[i]]->0)
        } else {
            Seq::empty()
        };
        assert forall|k: int| 0 <= k < here.len() implies looks_like_ipv4_spec(#[trigger] here[k]) by {
            if a.contains_key(net_keys()[i]) && a[net_keys()[i]] is Some {
                let raw = a[net_keys()[i]]->0;
                let parts = split(raw, one_of(list_sep())).map_values(|p: Seq<char>| trim(p));
                parts.lemma_filter_pred(|p: Seq<char>| looks_like_ipv4_spec(p), k);
            }
        }
        let rest = net_ips_from(a, i + 1);
        assert forall|k: int| 0 <= k < net_ips_from(a, i).len() implies looks_like_ipv4_spec(
            #[trigger] net_ips_from(a, i)[k],
        ) by {
            if k < here.len() {
                assert(net_ips_from(a, i)[k] == here[k]);
            } else {
                assert(net_ips_from(a, i)[k] == rest[k - here.len()]);
            }
        }
    }
}

proof fn lemma_addr_ip_ipv4(fs: Map<Seq<char>, FieldV>, i: int)
    ensures
        addr_ip_from(fs, i) matches Some(ip) ==> looks_like_ipv4_spec(ip),
    decreases addr_keys().len() - i,
{
    if 0 <= i < addr_keys().len() {
        lemma_addr_ip_ipv4(fs, i + 1);
    }
}

/// The preferred pick among candidate addresses: there is one exactly when
/// there is a candidate; it is the first candidate that starts with the
/// prefix, and when none does, the first candidate.
pub proof fn lemma_pick_preferred(cands: Seq<Seq<char>>, prefix: Seq<char>)
    ensures
        pick_preferred_spec(cands, prefix) is Some <==> cands.len() > 0,
        pick_preferred_spec(cands, prefix) matches Some(x) ==> cands.contains(x),
        forall|i: int|
            0 <= i < cands.len() && occurs_at(#[trigger] cands[i], 0, prefix) && (forall|j: int|
                0 <= j < i ==> !occurs_at(cands[j], 0, prefix)) ==> pick_preferred_spec(cands, prefix) == Some(cands[i]),
        (forall|i: int| 0 <= i < cands.len() ==> !occurs_at(#[trigger] cands[i], 0, prefix)) && cands.len() > 0
            ==> pick_preferred_spec(cands, prefix) == Some(cands[0]),
{
    lemma_pick_member(cands, prefix);
    assert forall|i: int|
        0 <= i < cands.len() && occurs_at(#[trigger] cands[i], 0, prefix) && (forall|j: int|
            0 <= j < i ==> !occurs_at(cands[j], 0, prefix)) implies pick_preferred_spec(cands, prefix) == Some(
        cands[i],
    ) by {
        lemma_first_prefixed(cands, prefix, i);
        let w = choose|w: int|
            0 <= w < cands.len() && occurs_at(#[trigger] cands[w], 0, prefix) && forall|j: int|
                0 <= j < w ==> !occurs_at(#[trigger] cands[j], 0, prefix);
        if w < i {
            assert(!occurs_at(cands[w], 0, prefix));
        } else if w > i {
            assert(!occurs_at(cands[i], 0, prefix));
        }
    }
    if cands.len() > 0 {
        if exists|i: int| 0 <= i < cands.len() && occurs_at(#[trigger] cands[i], 0, prefix) {
            let k = choose|i: int| 0 <= i < cands.len() && occurs_at(#[trigger] cands[i], 0, prefix);
            lemma_first_prefixed(cands, prefix, k);
        }
    }
}

/// A node whose attributes list at least one IPv4 network address has a
/// host IP: its dynamic or attribute `client_ip`, or one of those addresses;
/// and a node whose dynamic metadata gives an IPv4 `client_ip` is reached
/// there.
pub proof fn lemma_listed_address_gives_host_ip(fs: Map<Seq<char>, FieldV>, prefix: Seq<char>)
    ensures
        obj_field_from(fs, attr_keys(), 0) is Some && net_ips_from(obj_field_from(fs, attr_keys(), 0)->0, 0).len() > 0
            ==> client_ip_spec(fs, prefix) is Some,
        obj_field_from(fs, dyn_keys(), 0) is Some && if_ipv4(member(obj_field_from(fs, dyn_keys(), 0)->0, client_ip_keys()))
            is Some ==> client_ip_spec(fs, prefix) == if_ipv4(member(obj_field_from(fs, dyn_keys(), 0)->0, client_ip_keys())),
{
    if obj_field_from(fs, attr_keys(), 0) is Some {
        let a = obj_field_from(fs, attr_keys(), 0)->0;
        lemma_pick_preferred(net_ips_from(a, 0), prefix);
    }
}

proof fn lemma_split_covers(s: Seq<char>, p: spec_fn(char) -> bool, i: int, k: int)
    requires
        0 <= i <= k < s.len(),
        !p(s[k]),
    ensures
        exists|j: int, m: int|
            0 <= j < crate::text::split_from(s, p, i).len() && 0 <= m < crate::text::split_from(s, p, i)[j].len()
                && #[trigger] crate::text::split_from(s, p, i)[j][m] == s[k],
    decreases s.len() - i,
{
    let e = find_from(s, p, i);
    lemma_find_from(s, p, i);
    let parts = crate::text::split_from(s, p, i);
    if e >= s.len() {
        assert(parts[0] == s.subrange(i, s.len() as int));
        assert(parts[0][k - i] == s[k]);
    } else if k < e {
        assert(parts[0] == s.subrange(i, e));
        assert(parts[0][k - i] == s[k]);
    } else {
        if k == e {
            assert(p(s[e]));
        }
        lemma_split_covers(s, p, e + 1, k);
        let rest = crate::text::split_from(s, p, e + 1);
        let (j, m) = choose|j: int, m: int|
            0 <= j < rest.len() && 0 <= m < rest[j].len() && #[trigger] rest[j][m] == s[k];
        assert(parts[j + 1] == rest[j]);
        assert(parts[j + 1][m] == s[k]);
    }
}

/// The characters of an IPv4 address are digits, `.` and `+`.
proof fn lemma_ipv4_chars(a: Seq<char>)
    requires
        looks_like_ipv4_spec(a),
    ensures
        a.len() > 0,
        forall|k: int| 0 <= k < a.len() ==> #[trigger] a[k] == '.' || a[k] == '+' || crate::text::is_ascii_digit(a[k]),
{
    let dot = one_of(seq!['.']);
    let parts = split(a, dot);
    assert(parse_unsigned(parts[0], 0xffff) is Some);
    if a.len() == 0 {
        assert(crate::text::find_from(a, dot, 0) == 0);
        assert(parts.len() == 1);
    }
    assert forall|k: int| 0 <= k < a.len() implies #[trigger] a[k] == '.' || a[k] == '+' || crate::text::is_ascii_digit(
        a[k],
    ) by {
        if a[k] != '.' {
            assert(!dot(a[k])) by {
                if seq!['.'].contains(a[k]) {
                    assert(seq!['.'][0] == a[k]);
                }
            }
            lemma_split_covers(a, dot, 0, k);
            let (j, m) = choose|j: int, m: int|
                0 <= j < parts.len() && 0 <= m < parts[j].len() && #[trigger] parts[j][m] == a[k];
            let pj = parts[j];
            assert(parse_unsigned(pj, 0xffff) is Some);
            if pj.len() > 1 && pj[0] == '+' {
                if m > 0 {
                    assert(pj.drop_first()[m - 1] == pj[m]);
                }
            }
        }
    }
}

/// The IPv4 addresses of a network attribute list: two addresses separated by
/// a space, a comma, or a comma and a space, are both found, in order.
pub proof fn lemma_two_listed_addresses(a: Seq<char>, b: Seq<char>)
    requires
        looks_like_ipv4_spec(a),
        looks_like_ipv4_spec(b),
    ensures
        ipv4s_from_list_spec(a + seq![' '] + b) == seq![a, b],
        ipv4s_from_list_spec(a + seq![','] + b) == seq![a, b],
        ipv4s_from_list_spec(a + seq![',', ' '] + b) == seq![a, b],
{
    lemma_two_listed_addresses_apart(a, b);
    let p = one_of(list_sep());
    lemma_ipv4_chars(a);
    lemma_ipv4_chars(b);
    assert(list_sep()[0] == ',' && list_sep()[1] == ' ');
    assert(p(' ') && p(','));
    assert forall|k: int| 0 <= k < a.len() implies !p(#[trigger] a[k]) by {
        if list_sep().contains(a[k]) {
            let i = choose|i: int| 0 <= i < list_sep().len() && list_sep()[i] == a[k];
        }
    }
    assert(a + seq![',', ' '] + b =~= a + seq![','] + (seq![' '] + b));
    crate::text::lemma_split_sep(a, ',', seq![' '] + b, p);
    assert(seq![' '] + b =~= Seq::<char>::empty() + seq![' '] + b);
    crate::text::lemma_split_sep(Seq::<char>::empty(), ' ', b, p);
    let parts = split(a + seq![',', ' '] + b, p);
    assert(parts =~= seq![a] + (seq![Seq::<char>::empty()] + split(b, p)));
    crate::text::lemma_split_none(b, p);
    let e = Seq::<char>::empty();
    assert(trim(e) =~= e) by {
        assert(crate::text::skip_ws(e, 0) == 0);
    }
    if looks_like_ipv4_spec(e) {
        lemma_ipv4_chars(e);
    }
    lemma_trim_of_word(a);
    lemma_trim_of_word(b);
    let tr = |q: Seq<char>| trim(q);
    assert(seq![a, e, b].map_values(tr) =~= seq![a, e, b]);
    assert(parts =~= seq![a, e, b]);
    let keep = |q: Seq<char>| looks_like_ipv4_spec(q);
    reveal_with_fuel(Seq::filter, 4);
    assert(seq![a, e, b].drop_last() =~= seq![a, e]);
    assert(seq![a, e].drop_last() =~= seq![a]);
    assert(seq![a].drop_last() =~= Seq::<Seq<char>>::empty());
    assert(seq![a, e, b].filter(keep) =~= seq![a, b]);
}

/// Every item the list gives is an IPv4 address.
pub proof fn lemma_listed_items_are_ipv4(raw: Seq<char>)
    ensures
        forall|k: int| 0 <= k < ipv4s_from_list_spec(raw).len() ==> looks_like_ipv4_spec(
            #[trigger] ipv4s_from_list_spec(raw)[k],
        ),
{
    let parts = split(raw, one_of(list_sep())).map_values(|p: Seq<char>| trim(p));
    assert forall|k: int| 0 <= k < ipv4s_from_list_spec(raw).len() implies looks_like_ipv4_spec(
        #[trigger] ipv4s_from_list_spec(raw)[k],
    ) by {
        parts.lemma_filter_pred(|p: Seq<char>| looks_like_ipv4_spec(p), k);
    }
}

proof fn lemma_two_listed_addresses_apart(a: Seq<char>, b: Seq<char>)
    requires
        looks_like_ipv4_spec(a),
        looks_like_ipv4_spec(b),
    ensures
        ipv4s_from_list_spec(a + seq![' '] + b) == seq![a, b],
        ipv4s_from_list_spec(a + seq![','] + b) == seq![a, b],
{
    lemma_ipv4_chars(a);
    lemma_ipv4_chars(b);
    let p = one_of(list_sep());
    assert forall|c: char| c == '.' || c == '+' || crate::text::is_ascii_digit(c) implies !p(c) && !crate::text::is_ws(c) by {
        if list_sep().contains(c) {
            let i = choose|i: int| 0 <= i < list_sep().len() && list_sep()[i] == c;
            assert(list_sep()[0] == ',' && list_sep()[1] == ' ');
        }
    }
    assert forall|k: int| 0 <= k < a.len() implies !p(#[trigger] a[k]) by {}
    assert forall|k: int| 0 <= k < b.len() implies !p(#[trigger] b[k]) by {}
    assert(list_sep()[0] == ',' && list_sep()[1] == ' ');
    assert(p(' ') && p(','));
    crate::text::lemma_split_sep(a, ' ', b, p);
    crate::text::lemma_split_sep(a, ',', b, p);
    crate::text::lemma_split_none(b, p);
    assert(seq![a] + seq![b] =~= seq![a, b]);
    lemma_trim_of_word(a);
    lemma_trim_of_word(b);
    let tr = |q: Seq<char>| trim(q);
    assert(seq![a, b].map_values(tr) =~= seq![a, b]);
    let keep = |q: Seq<char>| looks_like_ipv4_spec(q);
    reveal_with_fuel(Seq::filter, 3);
    assert(seq![a, b].drop_last() =~= seq![a]);
    assert(seq![a].drop_last() =~= Seq::<Seq<char>>::empty());
    assert(seq![a].filter(keep) =~= seq![a]);
    assert(seq![a, b].filter(keep) =~= seq![a, b]);
}

/// Whatever a node holds, the host IP found for it is an IPv4 address.
pub proof fn lemma_client_ip_is_ipv4(fs: Map<Seq<char>, FieldV>, prefix: Seq<char>)
    ensures
        client_ip_spec(fs, prefix) matches Some(ip) ==> looks_like_ipv4_spec(ip),
{
    lemma_addr_ip_ipv4(fs, 0);
    match obj_field_from(fs, attr_keys(), 0) {
        Some(a) => {
            lemma_net_ips_ipv4(a, 0);
            lemma_pick_member(net_ips_from(a, 0), prefix);
        },
        None => {},
    }
}

// ---------------------------------------------------------------------
// The Nomad HTTP API
// ---------------------------------------------------------------------

/// A text without the `/`s it ends in.
pub open spec fn strip_trailing_slashes(s: Seq<char>) -> Seq<char>
    decreases s.len(),
{
    if s.len() > 0 && s.last() == '/' {
        strip_trailing_slashes(s.drop_last())
    } else {
        s
    }
}

/// The URL of an API path: the Nomad address without trailing slashes,
/// then the path.
pub fn nomad_api_url(addr: &str, path: &str) -> (r: String)
    ensures
        r@ == strip_trailing_slashes(addr@) + path@,
{
    let v = chars_of(addr);
    let mut n = v.len();
    assert(v@.take(n as int) =~= v@);
    while n > 0 && v[n - 1] == '/'
        invariant
            n <= v.len(),
            strip_trailing_slashes(v@.take(n as int)) == strip_trailing_slashes(v@),
        decreases n,
    {
        assert(v@.take(n as int).drop_last() =~= v@.take(n - 1));
        n = n - 1;
    }
    let head = slice(&v, 0, n);
    assert(head@ =~= v@.take(n as int));
    string_of(&concat(&head, &chars_of(path)))
}

/// `Nomad API error STATUS for PATH: BODY`.
pub fn nomad_api_error(status: &str, path: &str, body: &str) -> (r: String)
    ensures
        r@ == "Nomad API error "@ + status@ + " for "@ + path@ + ": "@ + body@,
{
    let t = concat(&chars_of("Nomad API error "), &chars_of(status));
    let t = concat(&concat(&t, &chars_of(" for ")), &chars_of(path));
    let t = concat(&concat(&t, &chars_of(": ")), &chars_of(body));
    string_of(&t)
}

/// `/v1/node/ID`.
pub fn node_detail_path(id: &str) -> (r: String)
    ensures
        r@ == "/v1/node/"@ + id@,
{
    string_of(&concat(&chars_of("/v1/node/"), &chars_of(id)))
}

/// `/v1/client/metadata?node_id=ID`, the id URL-encoded.
pub fn node_metadata_path(id: &str) -> (r: String)
    ensures
        r@ == "/v1/client/metadata?node_id="@ + url_encode_spec(id@),
{
    let enc = urlencoding_encode(id);
    string_of(&concat(&chars_of("/v1/client/metadata?node_id="), &chars_of(enc.as_str())))
}

} // verus!
