//! Reading the dispatch parameters of a parameterized Nomad job file:
//! the `meta_optional` / `meta_required` key lists, the defaults of its
//! `meta { ... }` blocks, the job name and the group count.
use vstd::prelude::*;

use crate::strmap::StrMap;
use crate::text::{
    chars_of, find_one_of, one_of, find_from, is_ws, lemma_find_from, lemma_skip_ws_bounds, lines_exec, lines_of,
    occurs_at, occurs_at_exec, parse_i64, parse_i64_exec, parse_unsigned, parse_unsigned_exec,
    signed_decimal, signed_decimal_i64, skip_ws, skip_ws_from, slice, string_of, trim, trim_chars,
};

verus! {

// ---------------------------------------------------------------------
// Character classes of the regular-expression engine
// ---------------------------------------------------------------------

/// Whether the regular expression `pattern` compiles and matches somewhere in `text`.
pub uninterp spec fn regex_matches(pattern: Seq<char>, text: Seq<char>) -> bool;

/// `regex::Regex::new(pattern)` and then `Regex::is_match(text)`; a pattern
/// that does not compile matches nothing. The contract names the result
/// (`regex_matches`) and claims nothing more of it.
#[verifier::external_body]
fn regex_is_match(pattern: &str, text: &str) -> (b: bool)
    ensures
        b == regex_matches(pattern@, text@),
{
    match regex::Regex::new(pattern) {
        Ok(re) => re.is_match(text),
        Err(_) => false,
    }
}

/// `c` is in the Unicode class `\w` of the regular-expression engine.
pub open spec fn word_char(c: char) -> bool {
    regex_matches("\\A\\w\\z"@, seq![c])
}

/// `c` is in the Unicode class `\d` (decimal digits) of the regular-expression engine.
pub open spec fn digit_char(c: char) -> bool {
    regex_matches("\\A\\d\\z"@, seq![c])
}

fn is_word_char(c: char) -> (b: bool)
    ensures
        b == word_char(c),
{
    let v = vec![c];
    let s = string_of(&v);
    assert(v@ =~= seq![c]);
    regex_is_match("\\A\\w\\z", s.as_str())
}

fn is_digit_char(c: char) -> (b: bool)
    ensures
        b == digit_char(c),
{
    let v = vec![c];
    let s = string_of(&v);
    assert(v@ =~= seq![c]);
    regex_is_match("\\A\\d\\z", s.as_str())
}

/// The characters outside `\w`.
pub open spec fn not_word_p() -> spec_fn(char) -> bool {
    |c: char| !word_char(c)
}

/// The characters outside `\d`.
pub open spec fn not_digit_p() -> spec_fn(char) -> bool {
    |c: char| !digit_char(c)
}

pub open spec fn is_key_start(c: char) -> bool {
    ('A' <= c && c <= 'Z') || ('a' <= c && c <= 'z') || c == '_'
}

/// `p` is where a line starts (the text's start, or just after a line feed).
pub open spec fn line_start(t: Seq<char>, p: int) -> bool {
    p == 0 || (0 < p <= t.len() && t[p - 1] == '\n')
}

// ---------------------------------------------------------------------
// Values
// ---------------------------------------------------------------------

/// A meta value, as a mathematical value.
pub ghost enum MetaVal {
    Null,
    Bool(bool),
    Int(int),
    Str(Seq<char>),
    /// A value given by its literal text (an unquoted word of the job file,
    /// or a number or structure whose rendering is this text).
    Text(Seq<char>),
}

/// A meta value: what a job file's `meta` block, a dispatch request or a
/// `KEY=VALUE` argument supplies for a key.
pub enum MetaValue {
    Null,
    Bool(bool),
    Int(i64),
    Str(String),
    /// A value given by its literal text: an unquoted word of a job file that
    /// is neither a boolean nor an integer, or a number or structure of a
    /// request, rendered.
    Text(String),
}

impl View for MetaValue {
    type V = MetaVal;

    open spec fn view(&self) -> MetaVal {
        match self {
            MetaValue::Null => MetaVal::Null,
            MetaValue::Bool(b) => MetaVal::Bool(*b),
            MetaValue::Int(n) => MetaVal::Int(*n as int),
            MetaValue::Str(s) => MetaVal::Str(s@),
            MetaValue::Text(s) => MetaVal::Text(s@),
        }
    }
}

impl MetaValue {
    pub fn clone_value(&self) -> (r: MetaValue)
        ensures
            r@ == self@,
    {
        match self {
            MetaValue::Null => MetaValue::Null,
            MetaValue::Bool(b) => MetaValue::Bool(*b),
            MetaValue::Int(n) => MetaValue::Int(*n),
            MetaValue::Str(s) => MetaValue::Str(s.clone()),
            MetaValue::Text(s) => MetaValue::Text(s.clone()),
        }
    }
}

/// The value of a default's right-hand side: a quoted string, `true`,
/// `false`, an integer, or else the text itself.
pub open spec fn meta_value_of(raw: Seq<char>) -> MetaVal {
    if raw.len() >= 2 && raw[0] == '"' && raw.last() == '"' {
        MetaVal::Str(raw.subrange(1, raw.len() - 1))
    } else if raw == "true"@ {
        MetaVal::Bool(true)
    } else if raw == "false"@ {
        MetaVal::Bool(false)
    } else {
        match parse_i64(raw) {
            Some(n) => MetaVal::Int(n),
            None => MetaVal::Text(raw),
        }
    }
}

pub fn parse_meta_value(raw: &Vec<char>) -> (r: MetaValue)
    ensures
        r@ == meta_value_of(raw@),
{
    let n = raw.len();
    if n >= 2 && raw[0] == '"' && raw[n - 1] == '"' {
        return MetaValue::Str(string_of(&slice(raw, 1, n - 1)));
    }
    let t = chars_of("true");
    let f = chars_of("false");
    if crate::text::text_eq_exec(raw, &t) {
        return MetaValue::Bool(true);
    }
    if crate::text::text_eq_exec(raw, &f) {
        return MetaValue::Bool(false);
    }
    match parse_i64_exec(raw) {
        Some(v) => MetaValue::Int(v),
        None => MetaValue::Text(string_of(raw)),
    }
}

/// A value that counts as absent: null or the empty string.
pub open spec fn meta_is_empty(v: MetaVal) -> bool {
    match v {
        MetaVal::Null => true,
        MetaVal::Str(s) => s.len() == 0,
        _ => false,
    }
}

pub fn value_is_empty(v: &MetaValue) -> (b: bool)
    ensures
        b == meta_is_empty(v@),
{
    match v {
        MetaValue::Null => true,
        MetaValue::Str(s) => s.as_str().unicode_len() == 0,
        _ => false,
    }
}

/// How a value is written after `KEY=` on a dispatch command line.
pub open spec fn meta_text(v: MetaVal) -> Seq<char> {
    match v {
        MetaVal::Null => "null"@,
        MetaVal::Bool(b) => if b {
            "true"@
        } else {
            "false"@
        },
        MetaVal::Int(n) => signed_decimal(n),
        MetaVal::Str(s) => s,
        MetaVal::Text(s) => s,
    }
}

pub fn meta_value_as_str(v: &MetaValue) -> (r: Vec<char>)
    ensures
        r@ == meta_text(v@),
{
    match v {
        MetaValue::Null => chars_of("null"),
        MetaValue::Bool(b) => if *b {
            chars_of("true")
        } else {
            chars_of("false")
        },
        MetaValue::Int(n) => signed_decimal_i64(*n),
        MetaValue::Str(s) => chars_of(s.as_str()),
        MetaValue::Text(s) => chars_of(s.as_str()),
    }
}

// ---------------------------------------------------------------------
// The grammar of the pieces read from a job file
// ---------------------------------------------------------------------

/// `name\s*=\s*\[(.*?)\]` matched at `p`: the bracket's contents, which
/// hold no line feed and end at the first `]`.
pub open spec fn list_at(t: Seq<char>, p: int, name: Seq<char>) -> Option<Seq<char>> {
    let q = skip_ws(t, p + name.len());
    let r = skip_ws(t, q + 1);
    let e = find_from(t, one_of(seq![']', '\n']), r + 1);
    if occurs_at(t, p, name) && q < t.len() && t[q] == '=' && r < t.len() && t[r] == '['
        && e < t.len() && t[e] == ']' {
        Some(t.subrange(r + 1, e))
    } else {
        None
    }
}

/// The leftmost match of the list pattern at or after `p`.
pub open spec fn first_list_from(t: Seq<char>, p: int, name: Seq<char>) -> Option<Seq<char>>
    decreases t.len() + 1 - p,
{
    if p < 0 || p > t.len() {
        None
    } else if list_at(t, p, name) is Some {
        list_at(t, p, name)
    } else {
        first_list_from(t, p + 1, name)
    }
}

/// The non-empty quoted items (`"([^"]+)"`, leftmost-first, without overlap)
/// of `c` from index `i` on.
pub open spec fn quoted_from(c: Seq<char>, i: int) -> Seq<Seq<char>>
    decreases c.len() - i,
{
    let j = find_from(c, one_of(seq!['"']), i);
    let e = find_from(c, one_of(seq!['"']), j + 1);
    if i < 0 || i >= c.len() || j >= c.len() || e >= c.len() {
        Seq::empty()
    } else {
        proof {
            lemma_find_from(c, one_of(seq!['"']), i);
            lemma_find_from(c, one_of(seq!['"']), j + 1);
        }
        if e == j + 1 {
            quoted_from(c, j + 1)
        } else {
            seq![c.subrange(j + 1, e)] + quoted_from(c, e + 1)
        }
    }
}

/// The key list named `name` (`meta_optional` or `meta_required`): the
/// quoted items of the first list assigned to that name, or none.
pub open spec fn meta_list_spec(t: Seq<char>, name: Seq<char>) -> Seq<Seq<char>> {
    match first_list_from(t, 0, name) {
        Some(c) => quoted_from(c, 0),
        None => Seq::empty(),
    }
}

/// `(?m)^\s*count\s*=\s*(\d+)` matched at `p`: the bounds of the digits.
pub open spec fn count_at(t: Seq<char>, p: int) -> Option<(int, int)> {
    let k = skip_ws(t, p);
    let q = skip_ws(t, k + 5);
    let r = skip_ws(t, q + 1);
    let e = find_from(t, not_digit_p(), r);
    if line_start(t, p) && occurs_at(t, k, "count"@) && q < t.len() && t[q] == '=' && r
        < t.len() && digit_char(t[r]) {
        Some((r, e))
    } else {
        None
    }
}

/// The leftmost `count` match at or after `p`: its start and the bounds of its digits.
pub open spec fn first_count_from(t: Seq<char>, p: int) -> Option<(int, int, int)>
    decreases t.len() + 1 - p,
{
    if p < 0 || p > t.len() {
        None
    } else if let Some((r, e)) = count_at(t, p) {
        Some((p, r, e))
    } else {
        first_count_from(t, p + 1)
    }
}

/// The group count: the first `count = N` that starts a line, when `N`
/// is a `u32`.
pub open spec fn count_spec(t: Seq<char>) -> Option<u32> {
    match first_count_from(t, 0) {
        Some((_, r, e)) => match parse_unsigned(t.subrange(r, e), 0xffff_ffff) {
            Some(n) => Some(n as u32),
            None => None,
        },
        None => None,
    }
}

/// `(?m)^\s*job\s+"([^"]+)"` matched at `p`: the bounds of the job name.
pub open spec fn job_at(t: Seq<char>, p: int) -> Option<(int, int)> {
    let k = skip_ws(t, p);
    let q = skip_ws(t, k + 3);
    let e = find_from(t, one_of(seq!['"']), q + 1);
    if line_start(t, p) && occurs_at(t, k, "job"@) && q > k + 3 && q < t.len() && t[q] == '"'
        && e < t.len() && e > q + 1 {
        Some((q + 1, e))
    } else {
        None
    }
}

/// The leftmost `job` match at or after `p`: its start and the bounds of the name.
pub open spec fn first_job_from(t: Seq<char>, p: int) -> Option<(int, int, int)>
    decreases t.len() + 1 - p,
{
    if p < 0 || p > t.len() {
        None
    } else if let Some((lo, hi)) = job_at(t, p) {
        Some((p, lo, hi))
    } else {
        first_job_from(t, p + 1)
    }
}

/// The job's name: the first `job "NAME"` that starts a line.
pub open spec fn job_name_spec(t: Seq<char>) -> Option<Seq<char>> {
    match first_job_from(t, 0) {
        Some((_, lo, hi)) => Some(t.subrange(lo, hi)),
        None => None,
    }
}

/// `meta\s*\{([^{}]*)\}` matched at `p`: the bounds of the block's body.
pub open spec fn meta_block_at(t: Seq<char>, p: int) -> Option<(int, int)> {
    let q = skip_ws(t, p + 4);
    let e = find_from(t, one_of(seq!['{', '}']), q + 1);
    if occurs_at(t, p, "meta"@) && q < t.len() && t[q] == '{' && e < t.len() && t[e] == '}' {
        Some((q + 1, e))
    } else {
        None
    }
}

pub open spec fn first_meta_block_from(t: Seq<char>, p: int) -> Option<(int, int)>
    decreases t.len() + 1 - p,
{
    if p < 0 || p > t.len() {
        None
    } else if meta_block_at(t, p) is Some {
        meta_block_at(t, p)
    } else {
        first_meta_block_from(t, p + 1)
    }
}

pub proof fn lemma_meta_block_bounds(t: Seq<char>, p: int)
    requires
        0 <= p,
    ensures
        first_meta_block_from(t, p) matches Some((lo, hi)) ==> p < lo <= hi < t.len(),
    decreases t.len() + 1 - p,
{
    if p <= t.len() {
        if meta_block_at(t, p) is Some {
            lemma_skip_ws_bounds(t, p + 4);
            let q = skip_ws(t, p + 4);
            lemma_find_from(t, one_of(seq!['{', '}']), q + 1);
        } else {
            lemma_meta_block_bounds(t, p + 1);
        }
    }
}

/// The bodies of all `meta { ... }` blocks, in order.
pub open spec fn meta_bodies_from(t: Seq<char>, p: int) -> Seq<Seq<char>>
    decreases t.len() + 1 - p,
{
    if p < 0 {
        Seq::empty()
    } else {
        match first_meta_block_from(t, p) {
            Some((lo, hi)) => {
                proof {
                    lemma_meta_block_bounds(t, p);
                }
                seq![t.subrange(lo, hi)] + meta_bodies_from(t, hi + 1)
            },
            None => Seq::empty(),
        }
    }
}

/// `([A-Za-z_][\w]*)\s*=\s*(.+)` matched at `s` in a line `t` without line
/// feeds: the key and the text after the `=`.
pub open spec fn kv_at(t: Seq<char>, s: int) -> Option<(Seq<char>, Seq<char>)> {
    let w = find_from(t, not_word_p(), s + 1);
    let q = skip_ws(t, w);
    let r = skip_ws(t, q + 1);
    if 0 <= s < t.len() && is_key_start(t[s]) && q < t.len() && t[q] == '=' {
        if r < t.len() {
            Some((t.subrange(s, w), t.subrange(r, t.len() as int)))
        } else if t.len() > q + 1 {
            Some((t.subrange(s, w), t.subrange(t.len() - 1, t.len() as int)))
        } else {
            None
        }
    } else {
        None
    }
}

pub open spec fn first_kv_from(t: Seq<char>, s: int) -> Option<(Seq<char>, Seq<char>)>
    decreases t.len() + 1 - s,
{
    if s < 0 || s > t.len() {
        None
    } else if kv_at(t, s) is Some {
        kv_at(t, s)
    } else {
        first_kv_from(t, s + 1)
    }
}

/// The default one line of a `meta` body sets, if any: blank lines and
/// `#` comments set none.
pub open spec fn default_of_line(line: Seq<char>) -> Option<(Seq<char>, MetaVal)> {
    let t = trim(line);
    if t.len() == 0 || t[0] == '#' {
        None
    } else {
        match first_kv_from(t, 0) {
            Some((k, raw)) => Some((k, meta_value_of(trim(raw)))),
            None => None,
        }
    }
}

pub open spec fn apply_line(m: Map<Seq<char>, MetaVal>, line: Seq<char>) -> Map<Seq<char>, MetaVal> {
    match default_of_line(line) {
        Some((k, v)) => m.insert(k, v),
        None => m,
    }
}

pub open spec fn apply_lines(m: Map<Seq<char>, MetaVal>, lines: Seq<Seq<char>>) -> Map<
    Seq<char>,
    MetaVal,
>
    decreases lines.len(),
{
    if lines.len() == 0 {
        m
    } else {
        apply_line(apply_lines(m, lines.drop_last()), lines.last())
    }
}

pub open spec fn apply_bodies(m: Map<Seq<char>, MetaVal>, bodies: Seq<Seq<char>>) -> Map<
    Seq<char>,
    MetaVal,
>
    decreases bodies.len(),
{
    if bodies.len() == 0 {
        m
    } else {
        apply_lines(apply_bodies(m, bodies.drop_last()), lines_of(bodies.last()))
    }
}

/// A `meta` body line whose text, trimmed, starts with `#`: a comment.
pub open spec fn is_comment_line(line: Seq<char>) -> bool {
    trim(line).len() > 0 && trim(line)[0] == '#'
}

/// Comment lines set no default: a comment line leaves the defaults as they
/// are, and the lines of a `meta` body set the same defaults as those lines
/// with the comments taken out.
pub proof fn lemma_comment_lines_set_nothing(m: Map<Seq<char>, MetaVal>, lines: Seq<Seq<char>>)
    ensures
        forall|line: Seq<char>| is_comment_line(line) ==> #[trigger] apply_line(m, line) == m,
        apply_lines(m, lines) == apply_lines(m, lines.filter(|l: Seq<char>| !is_comment_line(l))),
    decreases lines.len(),
{
    let keep = |l: Seq<char>| !is_comment_line(l);
    if lines.len() == 0 {
        assert(lines.filter(keep) =~= lines);
    } else {
        let rest = lines.drop_last();
        let l = lines.last();
        lemma_comment_lines_set_nothing(m, rest);
        reveal_with_fuel(Seq::filter, 1);
        let f = rest.filter(keep);
        if keep(l) {
            assert(lines.filter(keep) == f.push(l));
            assert(f.push(l).drop_last() =~= f);
        } else {
            assert(lines.filter(keep) == f);
            assert(default_of_line(l) is None);
        }
    }
}

/// The defaults of all `meta` blocks; a later definition of a key wins.
pub open spec fn defaults_spec(t: Seq<char>) -> Map<Seq<char>, MetaVal> {
    apply_bodies(Map::empty(), meta_bodies_from(t, 0))
}

// ---------------------------------------------------------------------
// Scanning
// ---------------------------------------------------------------------

fn find_not_word(v: &Vec<char>, i: usize) -> (r: usize)
    requires
        i <= v.len(),
    ensures
        r == find_from(v@, not_word_p(), i as int),
        i <= r <= v.len(),
{
    let mut k = i;
    while k < v.len() && is_word_char(v[k])
        invariant
            i <= k <= v.len(),
            find_from(v@, not_word_p(), k as int) == find_from(v@, not_word_p(), i as int),
        decreases v.len() - k,
    {
        k = k + 1;
    }
    k
}

fn find_not_digit(v: &Vec<char>, i: usize) -> (r: usize)
    requires
        i <= v.len(),
    ensures
        r == find_from(v@, not_digit_p(), i as int),
        i <= r <= v.len(),
{
    let mut k = i;
    while k < v.len() && is_digit_char(v[k])
        invariant
            i <= k <= v.len(),
            find_from(v@, not_digit_p(), k as int) == find_from(v@, not_digit_p(), i as int),
        decreases v.len() - k,
    {
        k = k + 1;
    }
    k
}

fn find_quote(v: &Vec<char>, i: usize) -> (r: usize)
    requires
        i <= v.len(),
    ensures
        r == find_from(v@, one_of(seq!['"']), i as int),
        i <= r <= v.len(),
{
    let seps = vec!['"'];
    assert(seps@ =~= seq!['"']);
    find_one_of(v, &seps, i)
}

fn list_at_exec(t: &Vec<char>, p: usize, name: &Vec<char>) -> (r: Option<Vec<char>>)
    requires
        p <= t.len(),
    ensures
        match r {
            Some(c) => list_at(t@, p as int, name@) == Some(c@),
            None => list_at(t@, p as int, name@) is None,
        },
{
    if !occurs_at_exec(t, p, name) {
        return None;
    }
    let q = skip_ws_from(t, p + name.len());
    if !(q < t.len() && t[q] == '=') {
        return None;
    }
    let r = skip_ws_from(t, q + 1);
    if !(r < t.len() && t[r] == '[') {
        return None;
    }
    let seps = vec![']', '\n'];
    assert(seps@ =~= seq![']', '\n']);
    let e = find_one_of(t, &seps, r + 1);
    if !(e < t.len() && t[e] == ']') {
        return None;
    }
    Some(slice(t, r + 1, e))
}

fn first_list_exec(t: &Vec<char>, name: &Vec<char>) -> (r: Option<Vec<char>>)
    ensures
        match r {
            Some(c) => first_list_from(t@, 0, name@) == Some(c@),
            None => first_list_from(t@, 0, name@) is None,
        },
{
    let mut p: usize = 0;
    loop
        invariant
            p <= t.len(),
            first_list_from(t@, p as int, name@) == first_list_from(t@, 0, name@),
        decreases t.len() - p,
    {
        match list_at_exec(t, p, name) {
            Some(c) => {
                return Some(c);
            },
            None => {},
        }
        if p == t.len() {
            proof {
                assert(first_list_from(t@, p + 1, name@) is None);
            }
            return None;
        }
        p = p + 1;
    }
}

fn quoted_items(c: &Vec<char>) -> (r: Vec<String>)
    ensures
        r@.map_values(|s: String| s@) == quoted_from(c@, 0),
{
    let mut out: Vec<String> = Vec::new();
    let mut i: usize = 0;
    while i < c.len()
        invariant
            i <= c.len(),
            out@.map_values(|s: String| s@) + quoted_from(c@, i as int) == quoted_from(c@, 0),
        decreases c.len() - i,
    {
        let j = find_quote(c, i);
        if j >= c.len() {
            assert(quoted_from(c@, i as int) =~= Seq::<Seq<char>>::empty());
            assert(out@.map_values(|s: String| s@) + Seq::<Seq<char>>::empty() =~= out@.map_values(|s: String| s@));
            return out;
        }
        let e = find_quote(c, j + 1);
        if e >= c.len() {
            assert(quoted_from(c@, i as int) =~= Seq::<Seq<char>>::empty());
            assert(out@.map_values(|s: String| s@) + Seq::<Seq<char>>::empty() =~= out@.map_values(|s: String| s@));
            return out;
        }
        if e == j + 1 {
            i = j + 1;
        } else {
            let item = string_of(&slice(c, j + 1, e));
            let ghost before = out@.map_values(|s: String| s@);
            out.push(item);
            assert(out@.map_values(|s: String| s@) =~= before.push(item@));
            assert(before.push(item@) + quoted_from(c@, e + 1) =~= before + (seq![c@.subrange(j + 1, e as int)] + quoted_from(c@, e + 1)));
            i = e + 1;
        }
    }
    assert(quoted_from(c@, i as int) =~= Seq::<Seq<char>>::empty());
    assert(out@.map_values(|s: String| s@) + Seq::<Seq<char>>::empty() =~= out@.map_values(|s: String| s@));
    out
}

fn meta_list(t: &Vec<char>, name: &str) -> (r: Vec<String>)
    ensures
        r@.map_values(|s: String| s@) == meta_list_spec(t@, name@),
{
    let nm = chars_of(name);
    match first_list_exec(t, &nm) {
        Some(c) => quoted_items(&c),
        None => {
            let v: Vec<String> = Vec::new();
            assert(v@.map_values(|s: String| s@) =~= Seq::<Seq<char>>::empty());
            v
        },
    }
}

fn is_line_start(t: &Vec<char>, p: usize) -> (b: bool)
    requires
        p <= t.len(),
    ensures
        b == line_start(t@, p as int),
{
    p == 0 || t[p - 1] == '\n'
}

fn count_at_exec(t: &Vec<char>, p: usize, kw: &Vec<char>) -> (r: Option<(usize, usize)>)
    requires
        p <= t.len(),
        kw@ == "count"@,
    ensures
        match r {
            Some((lo, hi)) => count_at(t@, p as int) == Some((lo as int, hi as int)) && lo
                <= hi <= t.len(),
            None => count_at(t@, p as int) is None,
        },
{
    if !is_line_start(t, p) {
        return None;
    }
    let k = skip_ws_from(t, p);
    if !occurs_at_exec(t, k, kw) {
        return None;
    }
    proof {
        reveal_strlit("count");
    }
    let q = skip_ws_from(t, k + 5);
    if !(q < t.len() && t[q] == '=') {
        return None;
    }
    let r = skip_ws_from(t, q + 1);
    if !(r < t.len() && is_digit_char(t[r])) {
        return None;
    }
    let e = find_not_digit(t, r);
    Some((r, e))
}

fn first_count_exec(t: &Vec<char>) -> (r: Option<(usize, usize, usize)>)
    ensures
        match r {
            Some((p, lo, hi)) => first_count_from(t@, 0) == Some((p as int, lo as int, hi as int))
                && p <= lo <= hi <= t.len(),
            None => first_count_from(t@, 0) is None,
        },
{
    let kw = chars_of("count");
    let mut p: usize = 0;
    loop
        invariant
            p <= t.len(),
            kw@ == "count"@,
            first_count_from(t@, p as int) == first_count_from(t@, 0),
        decreases t.len() - p,
    {
        match count_at_exec(t, p, &kw) {
            Some((lo, hi)) => {
                proof {
                    lemma_skip_ws_bounds(t@, p as int);
                    let k = skip_ws(t@, p as int);
                    lemma_skip_ws_bounds(t@, k + 5);
                    let q = skip_ws(t@, k + 5);
                    lemma_skip_ws_bounds(t@, q + 1);
                }
                return Some((p, lo, hi));
            },
            None => {},
        }
        if p == t.len() {
            proof {
                assert(first_count_from(t@, p + 1) is None);
            }
            return None;
        }
        p = p + 1;
    }
}

fn count_exec(t: &Vec<char>) -> (r: Option<u32>)
    ensures
        r == count_spec(t@),
{
    match first_count_exec(t) {
        Some((_, lo, hi)) => match parse_unsigned_exec(&slice(t, lo, hi), 0xffff_ffffu64) {
            Some(n) => Some(n as u32),
            None => None,
        },
        None => None,
    }
}

fn job_at_exec(t: &Vec<char>, p: usize, kw: &Vec<char>) -> (r: Option<(usize, usize)>)
    requires
        p <= t.len(),
        kw@ == "job"@,
    ensures
        match r {
            Some((lo, hi)) => job_at(t@, p as int) == Some((lo as int, hi as int)) && lo <= hi
                < t.len(),
            None => job_at(t@, p as int) is None,
        },
{
    if !is_line_start(t, p) {
        return None;
    }
    let k = skip_ws_from(t, p);
    if !occurs_at_exec(t, k, kw) {
        return None;
    }
    proof {
        reveal_strlit("job");
    }
    let q = skip_ws_from(t, k + 3);
    if !(q > k + 3 && q < t.len() && t[q] == '"') {
        return None;
    }
    let e = find_quote(t, q + 1);
    if !(e < t.len() && e > q + 1) {
        return None;
    }
    Some((q + 1, e))
}

fn first_job_exec(t: &Vec<char>) -> (r: Option<(usize, usize, usize)>)
    ensures
        match r {
            Some((p, lo, hi)) => first_job_from(t@, 0) == Some((p as int, lo as int, hi as int))
                && p < lo <= hi < t.len(),
            None => first_job_from(t@, 0) is None,
        },
{
    let kw = chars_of("job");
    let mut p: usize = 0;
    loop
        invariant
            p <= t.len(),
            kw@ == "job"@,
            first_job_from(t@, p as int) == first_job_from(t@, 0),
        decreases t.len() - p,
    {
        match job_at_exec(t, p, &kw) {
            Some((lo, hi)) => {
                proof {
                    lemma_skip_ws_bounds(t@, p as int);
                    let k = skip_ws(t@, p as int);
                    lemma_skip_ws_bounds(t@, k + 3);
                }
                return Some((p, lo, hi));
            },
            None => {},
        }
        if p == t.len() {
            proof {
                assert(first_job_from(t@, p + 1) is None);
            }
            return None;
        }
        p = p + 1;
    }
}

fn job_name_exec(t: &Vec<char>) -> (r: Option<String>)
    ensures
        opt_view(r) == job_name_spec(t@),
{
    match first_job_exec(t) {
        Some((_, lo, hi)) => Some(string_of(&slice(t, lo, hi))),
        None => None,
    }
}

fn meta_block_at_exec(t: &Vec<char>, p: usize, kw: &Vec<char>) -> (r: Option<(usize, usize)>)
    requires
        p <= t.len(),
        kw@ == "meta"@,
    ensures
        match r {
            Some((lo, hi)) => meta_block_at(t@, p as int) == Some((lo as int, hi as int)),
            None => meta_block_at(t@, p as int) is None,
        },
{
    if !occurs_at_exec(t, p, kw) {
        return None;
    }
    proof {
        reveal_strlit("meta");
    }
    let q = skip_ws_from(t, p + 4);
    if !(q < t.len() && t[q] == '{') {
        return None;
    }
    let seps = vec!['{', '}'];
    assert(seps@ =~= seq!['{', '}']);
    let e = find_one_of(t, &seps, q + 1);
    if !(e < t.len() && t[e] == '}') {
        return None;
    }
    Some((q + 1, e))
}

fn first_meta_block_exec(t: &Vec<char>, start: usize, kw: &Vec<char>) -> (r: Option<(usize, usize)>)
    requires
        start <= t.len(),
        kw@ == "meta"@,
    ensures
        match r {
            Some((lo, hi)) => first_meta_block_from(t@, start as int) == Some((lo as int, hi as int)),
            None => first_meta_block_from(t@, start as int) is None,
        },
{
    let mut p: usize = start;
    loop
        invariant
            start <= p <= t.len(),
            kw@ == "meta"@,
            first_meta_block_from(t@, p as int) == first_meta_block_from(t@, start as int),
        decreases t.len() - p,
    {
        match meta_block_at_exec(t, p, kw) {
            Some(b) => {
                return Some(b);
            },
            None => {},
        }
        if p == t.len() {
            proof {
                assert(first_meta_block_from(t@, p + 1) is None);
            }
            return None;
        }
        p = p + 1;
    }
}

fn kv_at_exec(t: &Vec<char>, s: usize) -> (r: Option<(Vec<char>, Vec<char>)>)
    requires
        s <= t.len(),
    ensures
        match r {
            Some((k, raw)) => kv_at(t@, s as int) == Some((k@, raw@)),
            None => kv_at(t@, s as int) is None,
        },
{
    if s >= t.len() {
        return None;
    }
    let c = t[s];
    if !(('A' <= c && c <= 'Z') || ('a' <= c && c <= 'z') || c == '_') {
        return None;
    }
    let w = find_not_word(t, s + 1);
    let q = skip_ws_from(t, w);
    if !(q < t.len() && t[q] == '=') {
        return None;
    }
    let r = skip_ws_from(t, q + 1);
    if r < t.len() {
        Some((slice(t, s, w), slice(t, r, t.len())))
    } else if t.len() > q + 1 {
        Some((slice(t, s, w), slice(t, t.len() - 1, t.len())))
    } else {
        None
    }
}

fn first_kv_exec(t: &Vec<char>) -> (r: Option<(Vec<char>, Vec<char>)>)
    ensures
        match r {
            Some((k, raw)) => first_kv_from(t@, 0) == Some((k@, raw@)),
            None => first_kv_from(t@, 0) is None,
        },
{
    let mut s: usize = 0;
    loop
        invariant
            s <= t.len(),
            first_kv_from(t@, s as int) == first_kv_from(t@, 0),
        decreases t.len() - s,
    {
        match kv_at_exec(t, s) {
            Some(m) => {
                return Some(m);
            },
            None => {},
        }
        if s == t.len() {
            proof {
                assert(first_kv_from(t@, s + 1) is None);
            }
            return None;
        }
        s = s + 1;
    }
}

fn default_of_line_exec(line: &Vec<char>) -> (r: Option<(Vec<char>, MetaValue)>)
    ensures
        match r {
            Some((k, v)) => default_of_line(line@) == Some((k@, v@)),
            None => default_of_line(line@) is None,
        },
{
    let t = trim_chars(line);
    if t.len() == 0 || t[0] == '#' {
        return None;
    }
    match first_kv_exec(&t) {
        Some((k, raw)) => {
            let v = parse_meta_value(&trim_chars(&raw));
            Some((k, v))
        },
        None => None,
    }
}

/// The defaults of a job file, inserted into `m` in order.
fn collect_defaults(t: &Vec<char>, m: &mut StrMap<MetaValue>)
    requires
        old(m).wf(),
        old(m)@.map_values(|v: MetaValue| v@) == Map::<Seq<char>, MetaVal>::empty(),
    ensures
        final(m).wf(),
        final(m)@.map_values(|v: MetaValue| v@) == defaults_spec(t@),
{
    let kw = chars_of("meta");
    let mut p: usize = 0;
    let ghost mut done: Seq<Seq<char>> = Seq::empty();
    assert(meta_bodies_from(t@, 0) =~= done + meta_bodies_from(t@, 0));
    loop
        invariant
            p <= t.len(),
            kw@ == "meta"@,
            m.wf(),
            done + meta_bodies_from(t@, p as int) == meta_bodies_from(t@, 0),
            m@.map_values(|v: MetaValue| v@) == apply_bodies(Map::empty(), done),
        decreases t.len() - p,
    {
        let found = first_meta_block_exec(t, p, &kw);
        proof {
            lemma_meta_block_bounds(t@, p as int);
        }
        match found {
            None => {
                assert(meta_bodies_from(t@, p as int) =~= Seq::<Seq<char>>::empty());
                assert(done + Seq::<Seq<char>>::empty() =~= done);
                return;
            },
            Some((lo, hi)) => {
                let body = slice(t, lo, hi);
                let lines = lines_exec(&body);
                let ghost ls = lines@.map_values(|x: Vec<char>| x@);
                let ghost base = m@.map_values(|v: MetaValue| v@);
                let mut k: usize = 0;
                while k < lines.len()
                    invariant
                        k <= lines.len(),
                        ls == lines@.map_values(|x: Vec<char>| x@),
                        m.wf(),
                        m@.map_values(|v: MetaValue| v@) == apply_lines(base, ls.take(k as int)),
                    decreases lines.len() - k,
                {
                    let ghost before = m@.map_values(|v: MetaValue| v@);
                    assert(ls.take(k + 1).drop_last() =~= ls.take(k as int));
                    assert(ls.take(k + 1).last() == lines@[k as int]@);
                    match default_of_line_exec(&lines[k]) {
                        Some((key, v)) => {
                            let ghost kv = key@;
                            let ghost vv = v@;
                            m.insert(key, v);
                            assert(m@.map_values(|v: MetaValue| v@) =~= before.insert(kv, vv));
                        },
                        None => {},
                    }
                    k = k + 1;
                }
                assert(ls.take(lines.len() as int) =~= ls);
                proof {
                    let nb = t@.subrange(lo as int, hi as int);
                    assert(meta_bodies_from(t@, p as int) == seq![nb] + meta_bodies_from(t@, hi + 1));
                    let nd = done.push(nb);
                    assert(nd.drop_last() =~= done);
                    assert(nd + meta_bodies_from(t@, hi + 1) =~= done + meta_bodies_from(t@, p as int));
                    done = nd;
                }
                p = hi + 1;
            },
        }
    }
}

// ---------------------------------------------------------------------
// The parsed job file
// ---------------------------------------------------------------------

/// What a job file holds, as mathematical values.
pub ghost struct JobSpecView {
    pub optional: Seq<Seq<char>>,
    pub required: Seq<Seq<char>>,
    pub defaults: Map<Seq<char>, MetaVal>,
    pub job_name: Option<Seq<char>>,
    pub count: Option<u32>,
}

/// What a job file's text declares.
pub open spec fn parse_hcl_spec(t: Seq<char>) -> JobSpecView {
    JobSpecView {
        optional: meta_list_spec(t, "meta_optional"@),
        required: meta_list_spec(t, "meta_required"@),
        defaults: defaults_spec(t),
        job_name: job_name_spec(t),
        count: count_spec(t),
    }
}

/// The dispatch parameters of a parameterized job file.
pub struct ParsedHcl {
    pub optional: Vec<String>,
    pub required: Vec<String>,
    pub defaults: StrMap<MetaValue>,
    pub job_name: Option<String>,
    pub count: Option<u32>,
}

pub open spec fn opt_view(o: Option<String>) -> Option<Seq<char>> {
    match o {
        Some(s) => Some(s@),
        None => None,
    }
}

impl View for ParsedHcl {
    type V = JobSpecView;

    open spec fn view(&self) -> JobSpecView {
        JobSpecView {
            optional: self.optional@.map_values(|s: String| s@),
            required: self.required@.map_values(|s: String| s@),
            defaults: self.defaults@.map_values(|v: MetaValue| v@),
            job_name: opt_view(self.job_name),
            count: self.count,
        }
    }
}

impl ParsedHcl {
    pub open spec fn wf(self) -> bool {
        self.defaults.wf()
    }
}

/// The job file that declares nothing.
pub fn default_parsed() -> (r: ParsedHcl)
    ensures
        r.wf(),
        r@.optional.len() == 0,
        r@.required.len() == 0,
        r@.defaults == Map::<Seq<char>, MetaVal>::empty(),
        r@.job_name is None,
        r@.count is None,
{
    let d: StrMap<MetaValue> = StrMap::new();
    let r = ParsedHcl {
        optional: Vec::new(),
        required: Vec::new(),
        defaults: d,
        job_name: None,
        count: None,
    };
    assert(r@.defaults =~= Map::<Seq<char>, MetaVal>::empty());
    r
}

/// Reads the dispatch parameters of a job file's text.
pub fn parse_hcl(text: &str) -> (r: ParsedHcl)
    ensures
        r.wf(),
        r@ == parse_hcl_spec(text@),
{
    let t = chars_of(text);
    let optional = meta_list(&t, "meta_optional");
    let required = meta_list(&t, "meta_required");
    let count = count_exec(&t);
    let mut defaults: StrMap<MetaValue> = StrMap::new();
    assert(defaults@.map_values(|v: MetaValue| v@) =~= Map::<Seq<char>, MetaVal>::empty());
    collect_defaults(&t, &mut defaults);
    let job_name = job_name_exec(&t);
    let r = ParsedHcl { optional, required, defaults, job_name, count };
    r
}

// ---------------------------------------------------------------------
// Which meta keys a dispatch may set
// ---------------------------------------------------------------------

/// A map of meta values, as a map of mathematical values.
pub open spec fn meta_view(m: StrMap<MetaValue>) -> Map<Seq<char>, MetaVal> {
    m@.map_values(|v: MetaValue| v@)
}

pub open spec fn texts(v: Vec<String>) -> Seq<Seq<char>> {
    v@.map_values(|s: String| s@)
}

/// The keys a dispatch may set: the required ones, then the optional ones.
pub fn allowed_meta(parsed: &ParsedHcl) -> (r: Vec<String>)
    ensures
        texts(r) == parsed@.required + parsed@.optional,
{
    let mut r: Vec<String> = Vec::new();
    let mut i: usize = 0;
    while i < parsed.required.len()
        invariant
            i <= parsed.required.len(),
            texts(r) == texts(parsed.required).take(i as int),
        decreases parsed.required.len() - i,
    {
        let ghost before = texts(r);
        let c = parsed.required[i].clone();
        assert(c@ == texts(parsed.required)[i as int]);
        r.push(c);
        assert(texts(r) =~= before.push(c@));
        i = i + 1;
        assert(texts(r) =~= texts(parsed.required).take(i as int));
    }
    let mut j: usize = 0;
    while j < parsed.optional.len()
        invariant
            j <= parsed.optional.len(),
            texts(r) == texts(parsed.required) + texts(parsed.optional).take(j as int),
        decreases parsed.optional.len() - j,
    {
        let ghost before = texts(r);
        let c = parsed.optional[j].clone();
        assert(c@ == texts(parsed.optional)[j as int]);
        r.push(c);
        assert(texts(r) =~= before.push(c@));
        j = j + 1;
        assert(texts(r) =~= texts(parsed.required) + texts(parsed.optional).take(j as int));
    }
    assert(texts(parsed.optional).take(j as int) =~= texts(parsed.optional));
    assert(texts(parsed.required).take(parsed.required.len() as int) =~= texts(parsed.required));
    r
}

/// Whether `k` is one of `list`.
pub fn contains_text(list: &Vec<String>, k: &Vec<char>) -> (b: bool)
    ensures
        b == texts(*list).contains(k@),
{
    let mut i: usize = 0;
    while i < list.len()
        invariant
            i <= list.len(),
            forall|j: int| 0 <= j < i ==> texts(*list)[j] != k@,
        decreases list.len() - i,
    {
        let c = chars_of(list[i].as_str());
        if crate::text::text_eq_exec(&c, k) {
            assert(texts(*list)[i as int] == k@);
            return true;
        }
        i = i + 1;
    }
    false
}

/// The entries of `m` whose key is allowed and whose value is not empty.
pub open spec fn filter_spec(m: Map<Seq<char>, MetaVal>, allowed: Seq<Seq<char>>) -> Map<
    Seq<char>,
    MetaVal,
> {
    Map::new(
        |k: Seq<char>| m.contains_key(k) && allowed.contains(k) && !meta_is_empty(m[k]),
        |k: Seq<char>| m[k],
    )
}

/// Filtering keeps only allowed keys with non-empty values, and filtering
/// again changes nothing.
pub proof fn lemma_filter_meta_laws(m: Map<Seq<char>, MetaVal>, allowed: Seq<Seq<char>>)
    ensures
        forall|k: Seq<char>| #[trigger] filter_spec(m, allowed).contains_key(k) ==> allowed.contains(k)
            && !meta_is_empty(filter_spec(m, allowed)[k]) && m.contains_key(k) && m[k] == filter_spec(m, allowed)[k],
        filter_spec(filter_spec(m, allowed), allowed) == filter_spec(m, allowed),
{
    assert(filter_spec(filter_spec(m, allowed), allowed) =~= filter_spec(m, allowed));
}

/// The meta values a dispatch passes on: those of allowed keys that are not empty.
pub fn filter_meta(meta: &StrMap<MetaValue>, allowed: &Vec<String>) -> (r: StrMap<MetaValue>)
    requires
        meta.wf(),
    ensures
        r.wf(),
        meta_view(r) == filter_spec(meta_view(*meta), texts(*allowed)),
{
    let mut r: StrMap<MetaValue> = StrMap::new();
    let ghost mv = meta_view(*meta);
    let ghost al = texts(*allowed);
    let mut i: usize = 0;
    while i < meta.len()
        invariant
            i <= meta.pairs().len(),
            meta.wf(),
            r.wf(),
            mv == meta_view(*meta),
            al == texts(*allowed),
            forall|k: Seq<char>| #[trigger] meta_view(r).contains_key(k) <==> (mv.contains_key(k)
                && al.contains(k) && !meta_is_empty(mv[k]) && exists|j: int| 0 <= j < i
                && meta.pairs()[j].0 == k),
            forall|k: Seq<char>| #[trigger] meta_view(r).contains_key(k) ==> meta_view(r)[k]
                == mv[k],
        decreases meta.pairs().len() - i,
    {
        let k = meta.key_at(i);
        let v = meta.value_at(i);
        proof {
            meta.lemma_view_entry(i as int);
        }
        if contains_text(allowed, k) && !value_is_empty(v) {
            let ghost before = meta_view(r);
            let kk = k.clone();
            assert(kk@ == k@);
            r.insert(kk, v.clone_value());
            assert(meta_view(r) =~= before.insert(k@, v@));
        }
        proof {
            assert forall|q: Seq<char>| #[trigger] meta_view(r).contains_key(q) <==> (mv.contains_key(q)
                && al.contains(q) && !meta_is_empty(mv[q]) && exists|j: int| 0 <= j < i + 1
                && meta.pairs()[j].0 == q) by {
                if q == meta.pairs()[i as int].0 {
                    assert(0 <= i < i + 1 && meta.pairs()[i as int].0 == q);
                }
                if exists|j: int| 0 <= j < i + 1 && meta.pairs()[j].0 == q {
                    let j = choose|j: int| 0 <= j < i + 1 && meta.pairs()[j].0 == q;
                    if j < i {
                        assert(exists|j: int| 0 <= j < i && meta.pairs()[j].0 == q);
                    }
                }
            }
        }
        i = i + 1;
    }
    proof {
        assert forall|q: Seq<char>| #[trigger] mv.contains_key(q) implies exists|j: int|
            0 <= j < i && meta.pairs()[j].0 == q by {
            meta.lemma_view_key(q);
        }
    }
    assert(meta_view(r) =~= filter_spec(mv, al));
    r
}

// ---------------------------------------------------------------------
// Rewriting a job file for a different group count
// ---------------------------------------------------------------------

pub open spec fn is_cap_letter(c: char) -> bool {
    ('0' <= c && c <= '9') || ('a' <= c && c <= 'z') || ('A' <= c && c <= 'Z') || c == '_'
}

pub open spec fn not_cap_letter_p() -> spec_fn(char) -> bool {
    |c: char| !is_cap_letter(c)
}

/// A group reference at the start of `rep` (which starts with `$`): the
/// reference's name and where it ends; `${name}` or `$name` with `name` in
/// `[0-9A-Za-z_]+`.
pub open spec fn cap_ref(rep: Seq<char>) -> Option<(Seq<char>, int)> {
    if rep.len() <= 1 {
        None
    } else if rep[1] == '{' {
        let c = find_from(rep, one_of(seq!['}']), 2);
        if c < rep.len() {
            Some((rep.subrange(2, c), c + 1))
        } else {
            None
        }
    } else {
        let e = find_from(rep, not_cap_letter_p(), 1);
        if e == 1 {
            None
        } else {
            Some((rep.subrange(1, e), e))
        }
    }
}

/// The text a reference stands for: the group whose index it names, or
/// nothing.
pub open spec fn group_text(name: Seq<char>, groups: Seq<Seq<char>>) -> Seq<char> {
    match parse_unsigned(name, (groups.len() - 1) as nat) {
        Some(i) => if groups.len() > 0 {
            groups[i as int]
        } else {
            Seq::empty()
        },
        None => Seq::empty(),
    }
}

pub proof fn lemma_cap_ref_end(rep: Seq<char>)
    requires
        rep.len() > 0,
    ensures
        cap_ref(rep) matches Some((_, end)) ==> 2 <= end <= rep.len(),
{
    if rep.len() > 1 {
        if rep[1] == '{' {
            lemma_find_from(rep, one_of(seq!['}']), 2);
        } else {
            lemma_find_from(rep, not_cap_letter_p(), 1);
        }
    }
}

/// A replacement template with its group references (`$1`, `${1}`, ...)
/// replaced by the groups' texts and `$$` by `$`: the regular-expression
/// engine's replacement syntax.
pub open spec fn interp(rep: Seq<char>, groups: Seq<Seq<char>>) -> Seq<char>
    decreases rep.len(),
{
    if rep.len() == 0 {
        Seq::empty()
    } else if rep[0] != '$' {
        seq![rep[0]] + interp(rep.drop_first(), groups)
    } else if rep.len() > 1 && rep[1] == '$' {
        seq!['$'] + interp(rep.skip(2), groups)
    } else {
        match cap_ref(rep) {
            None => seq!['$'] + interp(rep.drop_first(), groups),
            Some((name, end)) => {
                proof {
                    lemma_cap_ref_end(rep);
                }
                group_text(name, groups) + interp(rep.skip(end), groups)
            },
        }
    }
}

/// Why a job file could not be rewritten.
pub enum VariantError {
    NoJobStanza,
    NoGroupCount,
}

/// `${1}NAME${2}`: the job-name replacement template.
pub open spec fn job_template(name: Seq<char>) -> Seq<char> {
    seq!['$', '{', '1', '}'] + name + seq!['$', '{', '2', '}']
}

/// `${1}N`: the count replacement template.
pub open spec fn count_template(n: u32) -> Seq<char> {
    seq!['$', '{', '1', '}'] + crate::text::decimal(n as nat)
}

/// The text with its first job name replaced.
pub open spec fn rename_job_spec(t: Seq<char>, name: Seq<char>) -> Option<Seq<char>> {
    match first_job_from(t, 0) {
        Some((p, lo, hi)) => Some(t.take(p) + interp(
            job_template(name),
            seq![t.subrange(p, hi + 1), t.subrange(p, lo), t.subrange(hi, hi + 1)],
        ) + t.skip(hi + 1)),
        None => None,
    }
}

/// The text with its first group count replaced.
pub open spec fn recount_spec(t: Seq<char>, n: u32) -> Option<Seq<char>> {
    match first_count_from(t, 0) {
        Some((p, r, e)) => Some(t.take(p) + interp(
            count_template(n),
            seq![t.subrange(p, e), t.subrange(p, r)],
        ) + t.skip(e)),
        None => None,
    }
}

/// The job file rewritten to run `n` instances under the name `name`.
pub open spec fn count_variant_spec(t: Seq<char>, n: u32, name: Seq<char>) -> Result<
    Seq<char>,
    VariantError,
> {
    match rename_job_spec(t, name) {
        None => Err(VariantError::NoJobStanza),
        Some(t2) => match recount_spec(t2, n) {
            None => Err(VariantError::NoGroupCount),
            Some(t3) => Ok(t3),
        },
    }
}

fn is_cap_letter_exec(c: char) -> (b: bool)
    ensures
        b == is_cap_letter(c),
{
    ('0' <= c && c <= '9') || ('a' <= c && c <= 'z') || ('A' <= c && c <= 'Z') || c == '_'
}

fn cap_ref_exec(rep: &Vec<char>, i: usize) -> (r: Option<(Vec<char>, usize)>)
    requires
        i < rep.len(),
    ensures
        match r {
            Some((name, end)) => cap_ref(rep@.skip(i as int)) == Some((name@, end - i)) && i + 2
                <= end <= rep.len(),
            None => cap_ref(rep@.skip(i as int)) is None,
        },
{
    let ghost s = rep@.skip(i as int);
    if i + 1 >= rep.len() {
        return None;
    }
    if rep[i + 1] == '{' {
        let mut c = i + 2;
        while c < rep.len() && rep[c] != '}'
            invariant
                i + 2 <= c <= rep.len(),
                s == rep@.skip(i as int),
                find_from(s, one_of(seq!['}']), c - i) == find_from(s, one_of(seq!['}']), 2),
            decreases rep.len() - c,
        {
            assert(s[c - i] == rep@[c as int]);
            assert(!seq!['}'].contains(rep@[c as int])) by {
                if seq!['}'].contains(rep@[c as int]) {
                    assert(seq!['}'][0] == '}');
                }
            }
            c = c + 1;
        }
        if c < rep.len() {
            assert(s[c - i] == '}');
            assert(seq!['}'][0] == '}');
            assert(seq!['}'].contains(s[c - i]));
            let name = slice(rep, i + 2, c);
            assert(name@ =~= s.subrange(2, c - i));
            return Some((name, c + 1));
        } else {
            return None;
        }
    } else {
        let mut e = i + 1;
        while e < rep.len() && is_cap_letter_exec(rep[e])
            invariant
                i + 1 <= e <= rep.len(),
                s == rep@.skip(i as int),
                find_from(s, not_cap_letter_p(), e - i) == find_from(s, not_cap_letter_p(), 1),
            decreases rep.len() - e,
        {
            assert(s[e - i] == rep@[e as int]);
            e = e + 1;
        }
        if e == i + 1 {
            return None;
        }
        let name = slice(rep, i + 1, e);
        assert(name@ =~= s.subrange(1, e - i));
        Some((name, e))
    }
}

fn group_text_exec(name: &Vec<char>, groups: &Vec<Vec<char>>) -> (r: Vec<char>)
    requires
        groups.len() > 0,
    ensures
        r@ == group_text(name@, groups@.map_values(|g: Vec<char>| g@)),
{
    match parse_unsigned_exec(name, (groups.len() - 1) as u64) {
        Some(i) => groups[i as usize].clone(),
        None => Vec::new(),
    }
}

fn interp_exec(rep: &Vec<char>, groups: &Vec<Vec<char>>) -> (r: Vec<char>)
    requires
        groups.len() > 0,
    ensures
        r@ == interp(rep@, groups@.map_values(|g: Vec<char>| g@)),
{
    let ghost gs = groups@.map_values(|g: Vec<char>| g@);
    let mut out: Vec<char> = Vec::new();
    let mut i: usize = 0;
    assert(rep@.skip(0) =~= rep@);
    while i < rep.len()
        invariant
            i <= rep.len(),
            groups.len() > 0,
            gs == groups@.map_values(|g: Vec<char>| g@),
            out@ + interp(rep@.skip(i as int), gs) == interp(rep@, gs),
        decreases rep.len() - i,
    {
        let ghost s = rep@.skip(i as int);
        let c = rep[i];
        assert(s[0] == c);
        if c != '$' {
            out.push(c);
            assert(s.drop_first() =~= rep@.skip(i + 1));
            i = i + 1;
        } else if i + 1 < rep.len() && rep[i + 1] == '$' {
            out.push('$');
            assert(s.skip(2) =~= rep@.skip(i + 2));
            i = i + 2;
        } else {
            match cap_ref_exec(rep, i) {
                None => {
                    out.push('$');
                    assert(s.drop_first() =~= rep@.skip(i + 1));
                    i = i + 1;
                },
                Some((name, end)) => {
                    let g = group_text_exec(&name, groups);
                    let ghost before = out@;
                    out = crate::text::concat(&out, &g);
                    assert(s.skip(end - i) =~= rep@.skip(end as int));
                    assert(before + (g@ + interp(s.skip(end - i), gs)) =~= out@ + interp(rep@.skip(end as int), gs));
                    i = end;
                },
            }
        }
    }
    assert(interp(rep@.skip(i as int), gs) =~= Seq::<char>::empty());
    assert(out@ + Seq::<char>::empty() =~= out@);
    out
}

/// Rewrites a job file's text to run `new_count` instances under the name
/// `new_job_name`: the first job name and the first group count are replaced.
pub fn count_variant_text(text: &str, new_count: u32, new_job_name: &str) -> (r: Result<String, VariantError>)
    ensures
        match (r, count_variant_spec(text@, new_count, new_job_name@)) {
            (Ok(s), Ok(t)) => s@ == t,
            (Err(VariantError::NoJobStanza), Err(VariantError::NoJobStanza)) => true,
            (Err(VariantError::NoGroupCount), Err(VariantError::NoGroupCount)) => true,
            _ => false,
        },
{
    let t = chars_of(text);
    let name = chars_of(new_job_name);
    let (p, lo, hi) = match first_job_exec(&t) {
        Some(m) => m,
        None => {
            return Err(VariantError::NoJobStanza);
        },
    };
    let mut tmpl = vec!['$', '{', '1', '}'];
    tmpl = crate::text::concat(&tmpl, &name);
    tmpl = crate::text::concat(&tmpl, &vec!['$', '{', '2', '}']);
    assert(tmpl@ =~= job_template(name@));
    let groups = vec![slice(&t, p, hi + 1), slice(&t, p, lo), slice(&t, hi, hi + 1)];
    assert(groups@.map_values(|g: Vec<char>| g@) =~= seq![
        t@.subrange(p as int, hi + 1),
        t@.subrange(p as int, lo as int),
        t@.subrange(hi as int, hi + 1),
    ]);
    let mid = interp_exec(&tmpl, &groups);
    let t2 = crate::text::concat(&crate::text::concat(&slice(&t, 0, p), &mid), &slice(&t, hi + 1, t.len()));
    assert(t@.take(p as int) =~= t@.subrange(0, p as int));
    assert(t@.skip(hi + 1) =~= t@.subrange(hi + 1, t@.len() as int));
    assert(rename_job_spec(t@, name@) == Some(t2@));
    let (p2, r2, e2) = match first_count_exec(&t2) {
        Some(m) => m,
        None => {
            return Err(VariantError::NoGroupCount);
        },
    };
    let digits = crate::text::decimal_u64(new_count as u64);
    let tmpl2 = crate::text::concat(&vec!['$', '{', '1', '}'], &digits);
    assert(tmpl2@ =~= count_template(new_count));
    let groups2 = vec![slice(&t2, p2, e2), slice(&t2, p2, r2)];
    assert(groups2@.map_values(|g: Vec<char>| g@) =~= seq![
        t2@.subrange(p2 as int, e2 as int),
        t2@.subrange(p2 as int, r2 as int),
    ]);
    let mid2 = interp_exec(&tmpl2, &groups2);
    let t3 = crate::text::concat(&crate::text::concat(&slice(&t2, 0, p2), &mid2), &slice(&t2, e2, t2.len()));
    assert(t2@.take(p2 as int) =~= t2@.subrange(0, p2 as int));
    assert(t2@.skip(e2 as int) =~= t2@.subrange(e2 as int, t2@.len() as int));
    Ok(string_of(&t3))
}

// ---------------------------------------------------------------------
// The rewritten job file declares the new count
// ---------------------------------------------------------------------

proof fn lemma_skip_ws_at(s: Seq<char>, i: int, m: int)
    requires
        0 <= i <= m <= s.len(),
        forall|k: int| i <= k < m ==> is_ws(#[trigger] s[k]),
        m == s.len() || !is_ws(s[m]),
    ensures
        skip_ws(s, i) == m,
    decreases m - i,
{
    if i < m {
        lemma_skip_ws_at(s, i + 1, m);
    }
}

proof fn lemma_find_from_at(s: Seq<char>, p: spec_fn(char) -> bool, i: int, m: int)
    requires
        0 <= i <= m <= s.len(),
        forall|k: int| i <= k < m ==> !p(#[trigger] s[k]),
        m == s.len() || p(s[m]),
    ensures
        find_from(s, p, i) == m,
    decreases m - i,
{
    if i < m {
        lemma_find_from_at(s, p, i + 1, m);
    }
}

proof fn lemma_first_count_min(t: Seq<char>, i: int)
    requires
        0 <= i,
        first_count_from(t, i) is Some,
    ensures
        ({
            let (p, r, e) = first_count_from(t, i)->0;
            &&& i <= p <= t.len()
            &&& count_at(t, p) == Some((r, e))
            &&& forall|q: int| i <= q < p ==> count_at(t, q) is None
        }),
    decreases t.len() + 1 - i,
{
    if count_at(t, i) is None {
        lemma_first_count_min(t, i + 1);
    }
}

proof fn lemma_first_count_intro(t: Seq<char>, i: int, p: int)
    requires
        0 <= i <= p <= t.len(),
        forall|q: int| i <= q < p ==> count_at(t, q) is None,
        count_at(t, p) is Some,
    ensures
        first_count_from(t, i) == Some((p, (count_at(t, p)->0).0, (count_at(t, p)->0).1)),
    decreases p - i,
{
    if i < p {
        lemma_first_count_intro(t, i + 1, p);
    }
}

/// A template without `$` stands for itself.
proof fn lemma_interp_plain(rep: Seq<char>, groups: Seq<Seq<char>>)
    requires
        forall|k: int| 0 <= k < rep.len() ==> #[trigger] rep[k] != '$',
    ensures
        interp(rep, groups) == rep,
    decreases rep.len(),
{
    if rep.len() > 0 {
        assert(rep[0] != '$');
        lemma_interp_plain(rep.drop_first(), groups);
        assert(rep =~= seq![rep[0]] + rep.drop_first());
    }
}

proof fn lemma_count_template(n: u32, g0: Seq<char>, g1: Seq<char>)
    ensures
        interp(count_template(n), seq![g0, g1]) == g1 + crate::text::decimal(n as nat),
{
    let d = crate::text::decimal(n as nat);
    let rep = count_template(n);
    crate::text::lemma_decimal_digits(n as nat);
    assert forall|k: int| 0 <= k < d.len() implies #[trigger] d[k] != '$' by {
        assert(crate::text::is_ascii_digit(d[k]));
    }
    assert(rep[0] == '$' && rep[1] == '{');
    assert(rep.len() > 1);
    assert(rep[2] == '1' && rep[3] == '}');
    assert(seq!['}'][0] == '}');
    assert(one_of(seq!['}'])(rep[3]));
    assert(!one_of(seq!['}'])(rep[2]));
    lemma_find_from_at(rep, one_of(seq!['}']), 2, 3);
    assert(rep.subrange(2, 3) =~= seq!['1']);
    assert(seq!['1'][0] == '1');
    assert(crate::text::digits_value(seq!['1'].drop_last()) == 0) by {
        assert(seq!['1'].drop_last() =~= Seq::<char>::empty());
    }
    assert(parse_unsigned(seq!['1'], 1) == Some(1nat));
    assert(rep.skip(4) =~= d);
    lemma_interp_plain(d, seq![g0, g1]);
}

proof fn lemma_digit_not_ws(c: char)
    requires
        crate::text::is_ascii_digit(c),
    ensures
        !is_ws(c),
        c != '=',
        c != 'c' && c != 'o' && c != 'u' && c != 'n' && c != 't',
{
}

/// The job file rewritten for `n` instances declares `n` instances: its first
/// `count = N` line now holds `n`. This rests on the regular-expression
/// engine's `\d` class holding the ASCII digits (Unicode's decimal digits,
/// as its documentation gives them), which the premise states.
#[verifier::spinoff_prover]
#[verifier::rlimit(40)]
pub proof fn lemma_recount_sets_count(t: Seq<char>, n: u32)
    requires
        recount_spec(t, n) is Some,
        forall|c: char| crate::text::is_ascii_digit(c) ==> #[trigger] digit_char(c),
    ensures
        count_spec(recount_spec(t, n)->0) == Some(n),
{
    reveal_strlit("count");
    let (p, r, e) = first_count_from(t, 0)->0;
    lemma_first_count_min(t, 0);
    let d = crate::text::decimal(n as nat);
    let l = d.len() as int;
    crate::text::lemma_decimal_digits(n as nat);
    lemma_count_template(n, t.subrange(p, e), t.subrange(p, r));
    let t3 = recount_spec(t, n)->0;
    let k = skip_ws(t, p);
    lemma_skip_ws_bounds(t, p);
    assert(occurs_at(t, k, "count"@));
    let qq = skip_ws(t, k + 5);
    lemma_skip_ws_bounds(t, k + 5);
    lemma_skip_ws_bounds(t, qq + 1);
    assert(r == skip_ws(t, qq + 1));
    lemma_find_from(t, not_digit_p(), r);
    assert(e == find_from(t, not_digit_p(), r));
    assert(t3 =~= t.take(r) + d + t.skip(e));
    assert(t3.len() == r + l + (t.len() - e));
    assert forall|j: int| 0 <= j < r implies #[trigger] t3[j] == t[j] by {}
    assert forall|j: int| 0 <= j < l implies #[trigger] t3[r + j] == d[j] by {}
    assert(r + l < t3.len() ==> t3[r + l] == t[e]);
    assert(crate::text::is_ascii_digit(d[0]));
    lemma_digit_not_ws(d[0]);
    assert(t3[r] == d[0]);

    // The match at `p` reads the same text up to the new digits.
    if p > 0 {
        assert(t3[p - 1] == t[p - 1]);
    }
    assert(!is_ws(t3[k]));
    lemma_skip_ws_at(t3, p, k);
    assert(t3.subrange(k, k + 5) =~= t.subrange(k, k + 5));
    assert(!is_ws(t3[qq]));
    lemma_skip_ws_at(t3, k + 5, qq);
    lemma_skip_ws_at(t3, qq + 1, r);
    assert forall|j: int| r <= j < r + l implies !#[trigger] not_digit_p()(t3[j]) by {
        assert(t3[r + (j - r)] == d[j - r]);
        assert(crate::text::is_ascii_digit(d[j - r]));
    }
    lemma_find_from_at(t3, not_digit_p(), r, r + l);
    assert(count_at(t3, p) == Some((r, r + l)));

    // No match starts earlier.
    assert forall|q: int| 0 <= q < p implies count_at(t3, q) is None by {
        if count_at(t3, q) is Some {
            let kq = skip_ws(t3, q);
            lemma_skip_ws_bounds(t3, q);
            assert(occurs_at(t3, kq, "count"@));
            let qq2 = skip_ws(t3, kq + 5);
            lemma_skip_ws_bounds(t3, kq + 5);
            let rr = skip_ws(t3, qq2 + 1);
            lemma_skip_ws_bounds(t3, qq2 + 1);
            if rr > r {
                if r < kq {
                    assert(is_ws(t3[r]));
                } else if r < kq + 5 {
                    assert(t3.subrange(kq, kq + 5)[r - kq] == t3[r]);
                    assert("count"@[r - kq] == t3[r]);
                } else if r < qq2 {
                    assert(is_ws(t3[r]));
                } else if r == qq2 {
                    assert(t3[qq2] == '=');
                } else {
                    assert(is_ws(t3[r]));
                }
            }
            assert(rr <= r);
            if q > 0 {
                assert(t3[q - 1] == t[q - 1]);
            }
            assert forall|j: int| q <= j < kq implies is_ws(#[trigger] t[j]) by {
                assert(t3[j] == t[j]);
            }
            assert(t3[kq] == t[kq]);
            lemma_skip_ws_at(t, q, kq);
            assert(t3.subrange(kq, kq + 5) =~= t.subrange(kq, kq + 5));
            assert forall|j: int| kq + 5 <= j < qq2 implies is_ws(#[trigger] t[j]) by {
                assert(t3[j] == t[j]);
            }
            assert(t3[qq2] == t[qq2]);
            lemma_skip_ws_at(t, kq + 5, qq2);
            assert forall|j: int| qq2 + 1 <= j < rr implies is_ws(#[trigger] t[j]) by {
                assert(t3[j] == t[j]);
            }
            if rr < r {
                assert(t3[rr] == t[rr]);
            }
            lemma_skip_ws_at(t, qq2 + 1, rr);
            assert(count_at(t, q) is Some);
        }
    }
    lemma_first_count_intro(t3, 0, p);
    assert(t3.subrange(r, r + l) =~= d);
    crate::text::lemma_parse_decimal(n as nat, 0xffff_ffff);
}


// ---------------------------------------------------------------------
// The renamed job file names the new job
// ---------------------------------------------------------------------

proof fn lemma_first_job_min(t: Seq<char>, i: int)
    requires
        0 <= i,
        first_job_from(t, i) is Some,
    ensures
        ({
            let (p, lo, hi) = first_job_from(t, i)->0;
            &&& i <= p <= t.len()
            &&& job_at(t, p) == Some((lo, hi))
            &&& forall|q: int| i <= q < p ==> job_at(t, q) is None
        }),
    decreases t.len() + 1 - i,
{
    if job_at(t, i) is None {
        lemma_first_job_min(t, i + 1);
    }
}

proof fn lemma_first_job_intro(t: Seq<char>, i: int, p: int)
    requires
        0 <= i <= p <= t.len(),
        forall|q: int| i <= q < p ==> job_at(t, q) is None,
        job_at(t, p) is Some,
    ensures
        first_job_from(t, i) == Some((p, (job_at(t, p)->0).0, (job_at(t, p)->0).1)),
    decreases p - i,
{
    if i < p {
        lemma_first_job_intro(t, i + 1, p);
    }
}

/// A template's leading `${d}` (`d` a digit naming one of three groups)
/// stands for that group.
proof fn lemma_interp_ref(d: char, rest: Seq<char>, groups: Seq<Seq<char>>)
    requires
        groups.len() == 3,
        d == '1' || d == '2',
    ensures
        interp(seq!['$', '{', d, '}'] + rest, groups) == groups[if d == '1' {
            1int
        } else {
            2int
        }] + interp(rest, groups),
{
    let rep = seq!['$', '{', d, '}'] + rest;
    assert(rep[0] == '$' && rep[1] == '{' && rep[2] == d && rep[3] == '}');
    assert(seq!['}'][0] == '}');
    assert(one_of(seq!['}'])(rep[3]));
    assert(!one_of(seq!['}'])(rep[2]));
    lemma_find_from_at(rep, one_of(seq!['}']), 2, 3);
    assert(rep.subrange(2, 3) =~= seq![d]);
    assert(seq![d][0] == d);
    assert(crate::text::digits_value(seq![d].drop_last()) == 0) by {
        assert(seq![d].drop_last() =~= Seq::<char>::empty());
    }
    if d == '1' {
        assert(parse_unsigned(seq![d], 2) == Some(1nat));
    } else {
        assert(parse_unsigned(seq![d], 2) == Some(2nat));
    }
    assert(rep.skip(4) =~= rest);
}

/// Text without `$` at the head of a template stands for itself.
proof fn lemma_interp_plain_prefix(a: Seq<char>, b: Seq<char>, groups: Seq<Seq<char>>)
    requires
        forall|k: int| 0 <= k < a.len() ==> #[trigger] a[k] != '$',
    ensures
        interp(a + b, groups) == a + interp(b, groups),
    decreases a.len(),
{
    if a.len() == 0 {
        assert(a + b =~= b);
        assert(a + interp(b, groups) =~= interp(b, groups));
    } else {
        assert((a + b)[0] == a[0]);
        assert((a + b).drop_first() =~= a.drop_first() + b);
        lemma_interp_plain_prefix(a.drop_first(), b, groups);
        assert(a =~= seq![a[0]] + a.drop_first());
        assert(seq![a[0]] + (a.drop_first() + interp(b, groups)) =~= a + interp(b, groups));
    }
}

/// A text that agrees with `t` up to the first job match's opening quote
/// has no job match before it either.
#[verifier::spinoff_prover]
proof fn lemma_no_job_before(t: Seq<char>, t2: Seq<char>, p: int, q: int)
    requires
        first_job_from(t, 0) matches Some((p0, _, _)) && p0 == p,
        0 <= q < p,
        (first_job_from(t, 0)->0).1 <= t2.len(),
        forall|j: int| 0 <= j < (first_job_from(t, 0)->0).1 ==> #[trigger] t2[j] == t[j],
    ensures
        job_at(t2, q) is None,
{
    reveal_strlit("job");
    lemma_first_job_min(t, 0);
    let (p, lo, hi) = first_job_from(t, 0)->0;
    let k = skip_ws(t, p);
    let qq = skip_ws(t, k + 3);
    lemma_skip_ws_bounds(t, p);
    lemma_skip_ws_bounds(t, k + 3);
    assert(lo == qq + 1);
    assert(t[k] == 'j') by {
        assert(t.subrange(k, k + 3) == "job"@);
        assert(t.subrange(k, k + 3)[0] == t[k]);
    }
    assert(!is_ws('j'));
    assert(!is_ws('"'));
    assert(t2[k] == t[k]);
    if job_at(t2, q) is Some {
        assert(job_at(t, q) is None);
        assert(line_start(t, q)) by {
            if q > 0 {
                assert(t2[q - 1] == t[q - 1]);
            }
        }
        let kq = skip_ws(t2, q);
        lemma_skip_ws_bounds(t2, q);
        if kq > k {
            assert(is_ws(t2[k]));
        }
        assert(kq <= k);
        assert forall|j: int| q <= j < kq implies is_ws(#[trigger] t[j]) by {
            assert(t2[j] == t[j]);
        }
        if kq < t.len() {
            assert(t2[kq] == t[kq]);
        }
        lemma_skip_ws_at(t, q, kq);
        assert(t2.subrange(kq, kq + 3) == "job"@);
        if kq < k && k < kq + 3 {
            assert(t2.subrange(kq, kq + 3)[k - kq] == t2[k]);
            assert("job"@[1] == 'o' && "job"@[2] == 'b');
        }
        assert(kq == k || kq + 3 <= k);
        assert(t.subrange(kq, kq + 3) =~= t2.subrange(kq, kq + 3));
        let qq2 = skip_ws(t2, kq + 3);
        lemma_skip_ws_bounds(t2, kq + 3);
        if kq == k {
            assert forall|j: int| k + 3 <= j < qq implies is_ws(#[trigger] t2[j]) by {
                assert(t2[j] == t[j]);
            }
            assert(t2[qq] == t[qq]);
            lemma_skip_ws_at(t2, k + 3, qq);
            assert(job_at(t, q) == job_at(t, p));
        } else {
            if qq2 > k {
                assert(is_ws(t2[k]));
            }
            assert(qq2 < k);
            assert forall|j: int| kq + 3 <= j < qq2 implies is_ws(#[trigger] t[j]) by {
                assert(t2[j] == t[j]);
            }
            assert(t2[qq2] == t[qq2]);
            lemma_skip_ws_at(t, kq + 3, qq2);
            let e = find_from(t, one_of(seq!['"']), qq2 + 1);
            lemma_find_from(t, one_of(seq!['"']), qq2 + 1);
            assert(one_of(seq!['"'])(t[qq])) by {
                assert(seq!['"'][0] == '"');
            }
            if e > qq {
                assert(!one_of(seq!['"'])(t[qq]));
            }
            assert(e <= qq);
            assert(t2[e] == t[e]);
            assert forall|j: int| qq2 + 1 <= j < e implies !one_of(seq!['"'])(#[trigger] t2[j]) by {
                assert(t2[j] == t[j]);
            }
            lemma_find_from_at(t2, one_of(seq!['"']), qq2 + 1, e);
            assert(job_at(t, q) is Some);
        }
    }
}

/// Renaming a job file's job to `name` (not empty, and holding neither `"`
/// nor `$`) makes `name` the file's job name.
#[verifier::spinoff_prover]
pub proof fn lemma_rename_sets_job_name(t: Seq<char>, name: Seq<char>)
    requires
        rename_job_spec(t, name) is Some,
        name.len() > 0,
        forall|k: int| 0 <= k < name.len() ==> #[trigger] name[k] != '"' && name[k] != '$',
    ensures
        job_name_spec(rename_job_spec(t, name)->0) == Some(name),
{
    reveal_strlit("job");
    lemma_first_job_min(t, 0);
    let (p, lo, hi) = first_job_from(t, 0)->0;
    let k = skip_ws(t, p);
    let qq = skip_ws(t, k + 3);
    lemma_skip_ws_bounds(t, p);
    lemma_skip_ws_bounds(t, k + 3);
    lemma_find_from(t, one_of(seq!['"']), qq + 1);
    assert(lo == qq + 1);
    assert(t[hi] == '"') by {
        assert(one_of(seq!['"'])(t[hi]));
        assert(seq!['"'].contains(t[hi]));
        assert(seq!['"'][0] == '"');
    }
    // The replacement: the match's head, the name, and the closing quote.
    let groups = seq![t.subrange(p, hi + 1), t.subrange(p, lo), t.subrange(hi, hi + 1)];
    let tail = seq!['$', '{', '2', '}'];
    assert(job_template(name) =~= seq!['$', '{', '1', '}'] + (name + tail));
    lemma_interp_ref('1', name + tail, groups);
    lemma_interp_plain_prefix(name, tail, groups);
    assert(tail =~= seq!['$', '{', '2', '}'] + Seq::<char>::empty());
    lemma_interp_ref('2', Seq::<char>::empty(), groups);
    assert(interp(Seq::<char>::empty(), groups) == Seq::<char>::empty());
    let t2 = rename_job_spec(t, name)->0;
    let big_l = lo + name.len();
    assert(t2 =~= t.take(lo) + name + seq!['"'] + t.skip(hi + 1));
    assert(forall|j: int| 0 <= j < lo ==> #[trigger] t2[j] == t[j]);
    assert(forall|j: int| lo <= j < big_l ==> #[trigger] t2[j] == name[j - lo]);
    assert(t2[big_l] == '"');
    assert(t2.len() == big_l + 1 + (t.len() - hi - 1));

    // The match at `p` now holds `name`.
    assert(t[k] == 'j') by {
        assert(t.subrange(k, k + 3) == "job"@);
        assert(t.subrange(k, k + 3)[0] == t[k]);
    }
    assert(!is_ws('j'));
    assert(!is_ws('"'));
    assert(line_start(t2, p));
    lemma_skip_ws_at(t2, p, k);
    assert(t2.subrange(k, k + 3) =~= t.subrange(k, k + 3));
    lemma_skip_ws_at(t2, k + 3, qq);
    assert forall|j: int| lo <= j < big_l implies !one_of(seq!['"'])(#[trigger] t2[j]) by {
        assert(t2[j] == name[j - lo]);
        if seq!['"'].contains(t2[j]) {
            assert(seq!['"'][0] == t2[j]);
        }
    }
    assert(one_of(seq!['"'])(t2[big_l])) by {
        assert(seq!['"'][0] == '"');
    }
    lemma_find_from_at(t2, one_of(seq!['"']), lo, big_l);
    assert(job_at(t2, p) == Some((lo, big_l)));

    // No match starts before `p`.
    assert forall|q: int| 0 <= q < p implies job_at(t2, q) is None by {
        lemma_no_job_before(t, t2, p, q);
    }
    lemma_first_job_intro(t2, 0, p);
    assert(t2.subrange(lo, big_l) =~= name);
}


// ---------------------------------------------------------------------
// Recounting keeps the job name
// ---------------------------------------------------------------------

/// What `\d` holds, as far as the job-name match can tell: no whitespace,
/// no quote, and none of the letters of `job`.
pub open spec fn digits_apart_from_job_syntax() -> bool {
    forall|c: char| #[trigger] digit_char(c) ==> !is_ws(c) && c != '"' && c != 'j' && c != 'o' && c != 'b'
}

proof fn lemma_skip_ws_shift(a: Seq<char>, b: Seq<char>, i: int, d: int)
    requires
        0 <= i <= a.len(),
        0 <= i + d,
        b.len() == a.len() + d,
        forall|j: int| i <= j < a.len() ==> #[trigger] b[j + d] == a[j],
    ensures
        skip_ws(b, i + d) == skip_ws(a, i) + d,
{
    let m = skip_ws(a, i);
    lemma_skip_ws_bounds(a, i);
    assert forall|j: int| i + d <= j < m + d implies is_ws(#[trigger] b[j]) by {
        assert(b[(j - d) + d] == a[j - d]);
    }
    if m < a.len() {
        assert(b[m + d] == a[m]);
    }
    lemma_skip_ws_at(b, i + d, m + d);
}

proof fn lemma_find_from_shift(a: Seq<char>, b: Seq<char>, pr: spec_fn(char) -> bool, i: int, d: int)
    requires
        0 <= i <= a.len(),
        0 <= i + d,
        b.len() == a.len() + d,
        forall|j: int| i <= j < a.len() ==> #[trigger] b[j + d] == a[j],
    ensures
        find_from(b, pr, i + d) == find_from(a, pr, i) + d,
{
    let m = find_from(a, pr, i);
    lemma_find_from(a, pr, i);
    assert forall|j: int| i + d <= j < m + d implies !pr(#[trigger] b[j]) by {
        assert(b[(j - d) + d] == a[j - d]);
    }
    if m < a.len() {
        assert(b[m + d] == a[m]);
    }
    lemma_find_from_at(b, pr, i + d, m + d);
}

/// A job match reads only the text from just before its start on, so
/// shifting that text shifts the match.
proof fn lemma_job_at_shift(a: Seq<char>, b: Seq<char>, q: int, d: int)
    requires
        1 <= q <= a.len(),
        1 <= q + d,
        b.len() == a.len() + d,
        forall|j: int| q - 1 <= j < a.len() ==> #[trigger] b[j + d] == a[j],
    ensures
        job_at(b, q + d) == match job_at(a, q) {
            Some((x, y)) => Some((x + d, y + d)),
            None => None,
        },
{
    reveal_strlit("job");
    assert(b[(q - 1) + d] == a[q - 1]);
    lemma_skip_ws_shift(a, b, q, d);
    let k = skip_ws(a, q);
    lemma_skip_ws_bounds(a, q);
    if k + 3 <= a.len() {
        assert(b.subrange(k + d, k + d + 3) =~= a.subrange(k, k + 3)) by {
            assert forall|j: int| 0 <= j < 3 implies #[trigger] b.subrange(k + d, k + d + 3)[j] == a.subrange(k, k + 3)[j] by {
                assert(b[(k + j) + d] == a[k + j]);
            }
        }
        lemma_skip_ws_shift(a, b, k + 3, d);
        let qq = skip_ws(a, k + 3);
        lemma_skip_ws_bounds(a, k + 3);
        if qq < a.len() {
            assert(b[qq + d] == a[qq]);
            lemma_find_from_shift(a, b, one_of(seq!['"']), qq + 1, d);
        }
    }
}

/// A job match that starts before a run of digits reads the same up to the
/// digits; the digits hold no quote, so putting other digits in their place
/// makes no match start there.
#[verifier::spinoff_prover]
proof fn lemma_no_job_before_digits(t2: Seq<char>, t3: Seq<char>, r: int, e: int, dd: Seq<char>, q: int)
    requires
        digits_apart_from_job_syntax(),
        0 <= q < r < e <= t2.len(),
        forall|j: int| r <= j < e ==> digit_char(#[trigger] t2[j]),
        dd.len() > 0,
        crate::text::all_ascii_digits(dd),
        t3 == t2.take(r) + dd + t2.skip(e),
        job_at(t2, q) is None,
    ensures
        job_at(t3, q) is None,
{
    reveal_strlit("job");
    let dl = dd.len() as int;
    let d = dl - (e - r);
    assert(t3.len() == t2.len() + d);
    assert forall|j: int| 0 <= j < r implies #[trigger] t3[j] == t2[j] by {}
    assert forall|j: int| r <= j < r + dl implies crate::text::is_ascii_digit(#[trigger] t3[j]) by {
        assert(t3[j] == dd[j - r]);
    }
    assert forall|j: int| e <= j < t2.len() implies #[trigger] t3[j + d] == t2[j] by {}
    assert(digit_char(t2[r]));
    assert(crate::text::is_ascii_digit(t3[r]));
    if job_at(t3, q) is Some {
        let kq = skip_ws(t3, q);
        lemma_skip_ws_bounds(t3, q);
        if kq > r {
            assert(is_ws(t3[r]));
        }
        assert forall|j: int| q <= j < kq implies is_ws(#[trigger] t2[j]) by {
            assert(t3[j] == t2[j]);
        }
        if kq < r {
            assert(t3[kq] == t2[kq]);
        }
        lemma_skip_ws_at(t2, q, kq);
        assert(t3.subrange(kq, kq + 3) == "job"@);
        if kq + 3 > r {
            assert(t3.subrange(kq, kq + 3)[r - kq] == t3[r]);
            assert("job"@[0] == 'j' && "job"@[1] == 'o' && "job"@[2] == 'b');
        }
        assert(t2.subrange(kq, kq + 3) =~= t3.subrange(kq, kq + 3));
        let qq2 = skip_ws(t3, kq + 3);
        lemma_skip_ws_bounds(t3, kq + 3);
        if qq2 > r {
            assert(is_ws(t3[r]));
        }
        assert(qq2 < r);
        assert forall|j: int| kq + 3 <= j < qq2 implies is_ws(#[trigger] t2[j]) by {
            assert(t3[j] == t2[j]);
        }
        assert(t3[qq2] == t2[qq2]);
        lemma_skip_ws_at(t2, kq + 3, qq2);
        let qt = one_of(seq!['"']);
        let e2 = find_from(t2, qt, qq2 + 1);
        lemma_find_from(t2, qt, qq2 + 1);
        let e3 = find_from(t3, qt, qq2 + 1);
        if e2 < r {
            assert forall|j: int| qq2 + 1 <= j < e2 implies !qt(#[trigger] t3[j]) by {
                assert(t3[j] == t2[j]);
            }
            assert(t3[e2] == t2[e2]);
            lemma_find_from_at(t3, qt, qq2 + 1, e2);
            assert(job_at(t2, q) is Some);
        } else {
            // No quote among the digits, old or new.
            assert forall|j: int| r <= j < e implies !qt(#[trigger] t2[j]) by {
                assert(digit_char(t2[j]));
                if seq!['"'].contains(t2[j]) {
                    assert(seq!['"'][0] == t2[j]);
                }
            }
            if e2 < e {
                assert(qt(t2[e2]));
                assert(!qt(t2[e2]));
            }
            assert(e2 >= e);
            assert forall|j: int| qq2 + 1 <= j < r + dl implies !qt(#[trigger] t3[j]) by {
                if j < r {
                    assert(t3[j] == t2[j]);
                } else {
                    assert(crate::text::is_ascii_digit(t3[j]));
                    if seq!['"'].contains(t3[j]) {
                        assert(seq!['"'][0] == t3[j]);
                    }
                }
            }
            lemma_find_from(t2, qt, e);
            assert(find_from(t2, qt, e) == e2) by {
                lemma_find_from_at(t2, qt, e, e2);
            }
            lemma_find_from_shift(t2, t3, qt, e, d);
            lemma_find_from_at(t3, qt, r + dl, e2 + d);
            assert forall|j: int| qq2 + 1 <= j < e2 + d implies !qt(#[trigger] t3[j]) by {
                if j >= r + dl {
                    assert(t3[(j - d) + d] == t2[j - d]);
                }
            }
            if e2 + d < t3.len() {
                assert(t3[e2 + d] == t2[e2]);
            }
            lemma_find_from_at(t3, qt, qq2 + 1, e2 + d);
            assert(job_at(t2, q) is Some);
        }
    }
}

/// A job match reads the text only up to its closing quote.
proof fn lemma_job_at_prefix(a: Seq<char>, b: Seq<char>, q: int, m: int)
    requires
        job_at(a, q) matches Some((_, y)) && y < m,
        m <= a.len(),
        m <= b.len(),
        forall|j: int| 0 <= j < m ==> #[trigger] b[j] == a[j],
    ensures
        job_at(b, q) == job_at(a, q),
{
    reveal_strlit("job");
    let (x, y) = job_at(a, q)->0;
    let k = skip_ws(a, q);
    let qq = skip_ws(a, k + 3);
    lemma_skip_ws_bounds(a, q);
    lemma_skip_ws_bounds(a, k + 3);
    lemma_find_from(a, one_of(seq!['"']), qq + 1);
    if q > 0 {
        assert(b[q - 1] == a[q - 1]);
    }
    assert forall|j: int| q <= j < k implies is_ws(#[trigger] b[j]) by {
        assert(b[j] == a[j]);
    }
    assert(b[k] == a[k]);
    lemma_skip_ws_at(b, q, k);
    assert(b.subrange(k, k + 3) =~= a.subrange(k, k + 3));
    assert forall|j: int| k + 3 <= j < qq implies is_ws(#[trigger] b[j]) by {
        assert(b[j] == a[j]);
    }
    assert(b[qq] == a[qq]);
    lemma_skip_ws_at(b, k + 3, qq);
    assert forall|j: int| qq + 1 <= j < y implies !one_of(seq!['"'])(#[trigger] b[j]) by {
        assert(b[j] == a[j]);
    }
    assert(b[y] == a[y]);
    lemma_find_from_at(b, one_of(seq!['"']), qq + 1, y);
}

/// Putting a new group count in place keeps the job's name, when the name is
/// on one line and `\d` holds nothing the job-name match reads as syntax.
#[verifier::spinoff_prover]
#[verifier::rlimit(40)]
proof fn lemma_recount_keeps_job_name(t2: Seq<char>, n: u32)
    requires
        digits_apart_from_job_syntax(),
        recount_spec(t2, n) is Some,
        first_job_from(t2, 0) matches Some((_, lo, hi)) && forall|j: int| lo <= j < hi ==> #[trigger] t2[j] != '\n',
    ensures
        job_name_spec(recount_spec(t2, n)->0) == job_name_spec(t2),
{
    reveal_strlit("job");
    reveal_strlit("count");
    lemma_first_job_min(t2, 0);
    let (p, lo, hi) = first_job_from(t2, 0)->0;
    let k = skip_ws(t2, p);
    let qq = skip_ws(t2, k + 3);
    lemma_skip_ws_bounds(t2, p);
    lemma_skip_ws_bounds(t2, k + 3);
    let qt = one_of(seq!['"']);
    lemma_find_from(t2, qt, qq + 1);
    assert(lo == qq + 1);
    assert(t2[hi] == '"') by {
        assert(seq!['"'].contains(t2[hi]));
        assert(seq!['"'][0] == '"');
    }
    assert(t2.subrange(k, k + 3) == "job"@);
    lemma_first_count_min(t2, 0);
    let (pc, r, e) = first_count_from(t2, 0)->0;
    let kc = skip_ws(t2, pc);
    let qc = skip_ws(t2, kc + 5);
    lemma_skip_ws_bounds(t2, pc);
    lemma_skip_ws_bounds(t2, kc + 5);
    lemma_skip_ws_bounds(t2, qc + 1);
    assert(t2.subrange(kc, kc + 5) == "count"@);
    lemma_find_from(t2, not_digit_p(), r);
    assert(digit_char(t2[r]));
    assert(forall|j: int| r <= j < e ==> digit_char(#[trigger] t2[j]));
    let dd = crate::text::decimal(n as nat);
    crate::text::lemma_decimal_digits(n as nat);
    lemma_count_template(n, t2.subrange(pc, e), t2.subrange(pc, r));
    let t3 = recount_spec(t2, n)->0;
    assert(t3 =~= t2.take(r) + dd + t2.skip(e));
    if r > hi {
        assert forall|j: int| 0 <= j < r implies #[trigger] t3[j] == t2[j] by {}
        lemma_job_at_prefix(t2, t3, p, r);
        assert forall|q: int| 0 <= q < p implies job_at(t3, q) is None by {
            lemma_no_job_before(t2, t3, p, q);
        }
        lemma_first_job_intro(t3, 0, p);
        assert(t3.subrange(lo, hi) =~= t2.subrange(lo, hi));
    } else {
        // The digits stand before the job's line.
        assert(!is_ws('"'));
        if r == hi {
            assert(false);
        }
        if lo <= r < hi {
            if pc <= qq {
                if pc <= qq < kc {
                    assert(is_ws(t2[qq]));
                } else if kc <= qq < kc + 5 {
                    assert(t2.subrange(kc, kc + 5)[qq - kc] == t2[qq]);
                    assert("count"@[0] == 'c' && "count"@[1] == 'o' && "count"@[2] == 'u' && "count"@[3] == 'n'
                        && "count"@[4] == 't');
                } else if kc + 5 <= qq < qc {
                    assert(is_ws(t2[qq]));
                } else if qq == qc {
                    assert(t2[qc] == '=');
                } else {
                    assert(is_ws(t2[qq]));
                }
                assert(false);
            } else {
                assert(line_start(t2, pc));
                assert(t2[pc - 1] == '\n');
                if pc - 1 == qq {
                    assert(false);
                } else {
                    assert(t2[pc - 1] != '\n');
                }
            }
        }
        if p <= r < lo {
            if r < k {
                assert(is_ws(t2[r]));
            } else if r < k + 3 {
                assert(t2.subrange(k, k + 3)[r - k] == t2[r]);
                assert("job"@[0] == 'j' && "job"@[1] == 'o' && "job"@[2] == 'b');
            } else if r < qq {
                assert(is_ws(t2[r]));
            }
            assert(false);
        }
        assert(r < p);
        assert(t2[p - 1] == '\n');
        assert(is_ws('\n'));
        if e > p - 1 {
            assert(digit_char(t2[p - 1]));
        }
        assert(e <= p - 1);
        let dl = dd.len() as int;
        let d = dl - (e - r);
        assert(t3.len() == t2.len() + d);
        assert forall|j: int| e <= j < t2.len() implies #[trigger] t3[j + d] == t2[j] by {}
        assert forall|j: int| r <= j < r + dl implies crate::text::is_ascii_digit(#[trigger] t3[j]) by {
            assert(t3[j] == dd[j - r]);
        }
        lemma_job_at_shift(t2, t3, p, d);
        assert forall|q: int| 0 <= q < p + d implies job_at(t3, q) is None by {
            if q < r {
                lemma_no_job_before_digits(t2, t3, r, e, dd, q);
            } else if q == r {
                assert(crate::text::is_ascii_digit(t3[r]));
                lemma_skip_ws_at(t3, r, r);
                if occurs_at(t3, r, "job"@) {
                    assert(t3.subrange(r, r + 3)[0] == t3[r]);
                }
            } else if q <= r + dl {
                assert(crate::text::is_ascii_digit(t3[q - 1]));
                assert(!line_start(t3, q));
            } else {
                let q2 = q - d;
                lemma_job_at_shift(t2, t3, q2, d);
            }
        }
        lemma_first_job_intro(t3, 0, p + d);
        assert(t3.subrange(lo + d, hi + d) =~= t2.subrange(lo, hi)) by {
            assert forall|j: int| 0 <= j < hi - lo implies #[trigger] t3.subrange(lo + d, hi + d)[j]
                == t2.subrange(lo, hi)[j] by {
                assert(t3[(lo + j) + d] == t2[lo + j]);
            }
        }
    }
}

/// The job file rewritten for `n` instances under the name `name` reads back
/// as asked: its job is named `name` and it declares `n` instances. `name` is
/// not empty and holds no quote, `$` or line feed. The last two premises
/// state what the regular-expression engine's `\d` holds: the ASCII digits,
/// and nothing that the job-name match reads as syntax.
pub proof fn lemma_count_variant_reads_back(t: Seq<char>, n: u32, name: Seq<char>)
    requires
        count_variant_spec(t, n, name) is Ok,
        name.len() > 0,
        forall|k: int| 0 <= k < name.len() ==> #[trigger] name[k] != '"' && name[k] != '$' && name[k] != '\n',
        forall|c: char| crate::text::is_ascii_digit(c) ==> #[trigger] digit_char(c),
        digits_apart_from_job_syntax(),
    ensures
        count_variant_spec(t, n, name) matches Ok(v) ==> parse_hcl_spec(v).job_name == Some(name)
            && parse_hcl_spec(v).count == Some(n),
{
    let t2 = rename_job_spec(t, name)->0;
    lemma_rename_sets_job_name(t, name);
    lemma_first_job_min(t2, 0);
    let (p, lo, hi) = first_job_from(t2, 0)->0;
    lemma_skip_ws_bounds(t2, p);
    lemma_skip_ws_bounds(t2, skip_ws(t2, p) + 3);
    assert(0 <= lo <= hi < t2.len());
    assert(t2.subrange(lo, hi) == name);
    assert forall|j: int| lo <= j < hi implies #[trigger] t2[j] != '\n' by {
        assert(t2.subrange(lo, hi)[j - lo] == t2[j]);
    }
    lemma_recount_keeps_job_name(t2, n);
    lemma_recount_sets_count(t2, n);
}

} // verus!
