//! What the command line and the HTTP API accept: `KEY=VALUE` meta
//! arguments, the defaults of request fields, and the chainspec lookup.
use vstd::prelude::*;

use crate::chain::{config_file_name, config_name};
use crate::hcl::{meta_view, texts, MetaVal, MetaValue};
use crate::paths::{join_path, path_join};
use crate::strmap::StrMap;
use crate::text::{chars_of, concat, find_from, find_one_of, lemma_find_from, one_of, slice, string_of, trim, trim_chars};

verus! {

/// Meta given as `KEY=VALUE` arguments, in order: each splits at its first
/// `=` into a non-empty key and a string value, a later value for a key
/// replacing an earlier one. The first argument without `=`, or with an
/// empty key, is refused.
pub open spec fn meta_pairs_spec(pairs: Seq<Seq<char>>) -> Result<Map<Seq<char>, MetaVal>, Seq<char>>
    decreases pairs.len(),
{
    if pairs.len() == 0 {
        Ok(Map::empty())
    } else {
        match meta_pairs_spec(pairs.drop_last()) {
            Err(e) => Err(e),
            Ok(m) => {
                let p = pairs.last();
                let e = find_from(p, one_of(seq!['=']), 0);
                if e >= p.len() {
                    Err("invalid meta (expected KEY=VALUE): "@ + p)
                } else if e == 0 {
                    Err("invalid meta key in: "@ + p)
                } else {
                    Ok(m.insert(p.take(e), MetaVal::Str(p.skip(e + 1))))
                }
            },
        }
    }
}

/// Reads `KEY=VALUE` meta arguments.
pub fn parse_meta_pairs(pairs: &Vec<String>) -> (r: Result<StrMap<MetaValue>, String>)
    ensures
        match meta_pairs_spec(texts(*pairs)) {
            Ok(m) => r matches Ok(meta) && meta.wf() && meta_view(meta) == m,
            Err(msg) => r matches Err(e) && e@ == msg,
        },
{
    let ghost all = texts(*pairs);
    let mut meta: StrMap<MetaValue> = StrMap::new();
    assert(meta_view(meta) =~= Map::<Seq<char>, MetaVal>::empty());
    let eq = vec!['='];
    assert(eq@ =~= seq!['=']);
    let mut i: usize = 0;
    assert(all.take(0) =~= Seq::<Seq<char>>::empty());
    while i < pairs.len()
        invariant
            i <= pairs.len(),
            all == texts(*pairs),
            eq@ == seq!['='],
            meta.wf(),
            meta_pairs_spec(all.take(i as int)) == Ok::<Map<Seq<char>, MetaVal>, Seq<char>>(
                meta_view(meta),
            ),
        decreases pairs.len() - i,
    {
        let p = chars_of(pairs[i].as_str());
        assert(all.take(i + 1).drop_last() =~= all.take(i as int));
        assert(all.take(i + 1).last() == p@);
        proof {
            lemma_find_from(p@, one_of(seq!['=']), 0);
        }
        let e = find_one_of(&p, &eq, 0);
        if e >= p.len() {
            assert(meta_pairs_spec(all.take(i + 1)) matches Err(_));
            proof {
                lemma_pairs_error_stays(all, (i + 1) as int);
            }
            assert(all.take(pairs.len() as int) =~= all);
            return Err(string_of(&concat(&chars_of("invalid meta (expected KEY=VALUE): "), &p)));
        }
        if e == 0 {
            proof {
                lemma_pairs_error_stays(all, (i + 1) as int);
            }
            assert(all.take(pairs.len() as int) =~= all);
            return Err(string_of(&concat(&chars_of("invalid meta key in: "), &p)));
        }
        let key = slice(&p, 0, e);
        let value = slice(&p, e + 1, p.len());
        assert(key@ =~= p@.take(e as int));
        assert(value@ =~= p@.skip(e + 1));
        let ghost before = meta_view(meta);
        let v = MetaValue::Str(string_of(&value));
        meta.insert(key, v);
        assert(meta_view(meta) =~= before.insert(p@.take(e as int), MetaVal::Str(p@.skip(e + 1))));
        i = i + 1;
    }
    assert(all.take(i as int) =~= all);
    Ok(meta)
}

/// Once a prefix of the arguments is refused, every longer prefix is
/// refused with the same message.
proof fn lemma_pairs_error_stays(all: Seq<Seq<char>>, k: int)
    requires
        0 <= k <= all.len(),
        meta_pairs_spec(all.take(k)) is Err,
    ensures
        meta_pairs_spec(all) == meta_pairs_spec(all.take(k)),
    decreases all.len() - k,
{
    if k < all.len() {
        assert(all.take(k + 1).drop_last() =~= all.take(k));
        lemma_pairs_error_stays(all, k + 1);
    } else {
        assert(all.take(k) =~= all);
    }
}

// ---------------------------------------------------------------------
// Request defaults
// ---------------------------------------------------------------------

pub fn default_chain_id() -> (r: String)
    ensures
        r@ == "testnet"@,
{
    String::from_str("testnet")
}

pub fn default_base_port() -> (r: u32)
    ensures
        r == 40000,
{
    40000
}

pub fn default_ip_start() -> (r: String)
    ensures
        r@ == "192.168.20.2"@,
{
    String::from_str("192.168.20.2")
}

pub fn default_ip_end() -> (r: String)
    ensures
        r@ == "192.168.20.83"@,
{
    String::from_str("192.168.20.83")
}

pub fn default_true() -> (r: bool)
    ensures
        r,
{
    true
}

pub fn default_validators_kind() -> (r: String)
    ensures
        r@ == "validators"@,
{
    String::from_str("validators")
}

/// `unknown kind: KIND`.
pub fn unknown_kind_message(kind: &str) -> (r: String)
    ensures
        r@ == "unknown kind: "@ + kind@,
{
    string_of(&concat(&chars_of("unknown kind: "), &chars_of(kind)))
}

// ---------------------------------------------------------------------
// Reading a generated chainspec
// ---------------------------------------------------------------------

/// Where chain `chain_id`'s chainspec lies under the output directory, for
/// a chain id that is not blank (surrounding whitespace is dropped).
pub open spec fn chainspec_path_spec(output_dir: Seq<char>, chain_id: Seq<char>) -> Result<Seq<char>, Seq<char>> {
    let c = trim(chain_id);
    if c.len() == 0 {
        Err("missing chainId"@)
    } else {
        Ok(path_join(path_join(output_dir, c), config_name(c)))
    }
}

pub fn chainspec_path(output_dir: &str, chain_id: &str) -> (r: Result<String, String>)
    ensures
        match chainspec_path_spec(output_dir@, chain_id@) {
            Ok(p) => r matches Ok(s) && s@ == p,
            Err(m) => r matches Err(e) && e@ == m,
        },
{
    let c = trim_chars(&chars_of(chain_id));
    if c.len() == 0 {
        return Err(String::from_str("missing chainId"));
    }
    let cs = string_of(&c);
    let dir = join_path(output_dir, cs.as_str());
    let name = config_file_name(cs.as_str());
    Ok(join_path(dir.as_str(), name.as_str()))
}

/// `Chainspec not found for chain CHAIN`.
pub fn chainspec_missing_message(chain_id: &str) -> (r: String)
    ensures
        r@ == "Chainspec not found for chain "@ + trim(chain_id@),
{
    string_of(&concat(&chars_of("Chainspec not found for chain "), &trim_chars(&chars_of(chain_id))))
}

} // verus!
