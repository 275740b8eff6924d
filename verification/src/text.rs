//! Character-level text utilities: whitespace, trimming, splitting,
//! decimal rendering and parsing, and lexicographic order.
//!
//! Text is modelled as `Seq<char>`; executable code works on `Vec<char>`
//! and converts to and from `String` at the edges.
use vstd::prelude::*;

verus! {

// ---------------------------------------------------------------------
// Whitespace
// ---------------------------------------------------------------------

/// The Unicode `White_Space` property: what `char::is_whitespace`,
/// `str::trim` and the regular-expression class `\s` accept.
pub open spec fn is_ws(c: char) -> bool {
    let u = c as u32;
    ||| 0x09 <= u <= 0x0D
    ||| u == 0x20
    ||| u == 0x85
    ||| u == 0xA0
    ||| u == 0x1680
    ||| 0x2000 <= u <= 0x200A
    ||| u == 0x2028
    ||| u == 0x2029
    ||| u == 0x202F
    ||| u == 0x205F
    ||| u == 0x3000
}

pub fn is_ws_char(c: char) -> (b: bool)
    ensures
        b == is_ws(c),
{
    let u = c as u32;
    (0x09 <= u && u <= 0x0D) || u == 0x20 || u == 0x85 || u == 0xA0 || u == 0x1680 || (0x2000
        <= u && u <= 0x200A) || u == 0x2028 || u == 0x2029 || u == 0x202F || u == 0x205F || u
        == 0x3000
}

pub open spec fn is_ascii_digit(c: char) -> bool {
    '0' <= c && c <= '9'
}

pub open spec fn digit_value(c: char) -> nat {
    (c as u32 - '0' as u32) as nat
}

/// The index of the first character at or after `i` that is not whitespace
/// (or `s.len()` when there is none).
pub open spec fn skip_ws(s: Seq<char>, i: int) -> int
    decreases s.len() - i,
{
    if 0 <= i < s.len() && is_ws(s[i]) {
        skip_ws(s, i + 1)
    } else {
        i
    }
}

/// One past the last character before `j` that is not whitespace
/// (or 0 when there is none).
pub open spec fn rskip_ws(s: Seq<char>, j: int) -> int
    decreases j,
{
    if 0 < j <= s.len() && is_ws(s[j - 1]) {
        rskip_ws(s, j - 1)
    } else {
        j
    }
}

/// `s` without leading and trailing whitespace, as `str::trim` gives it.
pub open spec fn trim(s: Seq<char>) -> Seq<char> {
    let lo = skip_ws(s, 0);
    let hi = rskip_ws(s, s.len() as int);
    if hi <= lo {
        Seq::empty()
    } else {
        s.subrange(lo, hi)
    }
}

pub proof fn lemma_skip_ws_bounds(s: Seq<char>, i: int)
    requires
        0 <= i <= s.len(),
    ensures
        i <= skip_ws(s, i) <= s.len(),
        forall|k: int| i <= k < skip_ws(s, i) ==> is_ws(#[trigger] s[k]),
        skip_ws(s, i) < s.len() ==> !is_ws(s[skip_ws(s, i)]),
    decreases s.len() - i,
{
    if i < s.len() && is_ws(s[i]) {
        lemma_skip_ws_bounds(s, i + 1);
    }
}

pub proof fn lemma_rskip_ws_bounds(s: Seq<char>, j: int)
    requires
        0 <= j <= s.len(),
    ensures
        0 <= rskip_ws(s, j) <= j,
        forall|k: int| rskip_ws(s, j) <= k < j ==> is_ws(#[trigger] s[k]),
        rskip_ws(s, j) > 0 ==> !is_ws(s[rskip_ws(s, j) - 1]),
    decreases j,
{
    if j > 0 && is_ws(s[j - 1]) {
        lemma_rskip_ws_bounds(s, j - 1);
    }
}

/// A trimmed text neither starts nor ends with whitespace.
pub proof fn lemma_trim_edges(s: Seq<char>)
    ensures
        trim(s).len() > 0 ==> !is_ws(trim(s)[0]) && !is_ws(trim(s)[trim(s).len() - 1]),
        trim(s).len() <= s.len(),
{
    lemma_skip_ws_bounds(s, 0);
    lemma_rskip_ws_bounds(s, s.len() as int);
}

pub fn skip_ws_from(v: &Vec<char>, i: usize) -> (r: usize)
    requires
        i <= v.len(),
    ensures
        r == skip_ws(v@, i as int),
        i <= r <= v.len(),
{
    let mut k = i;
    while k < v.len() && is_ws_char(v[k])
        invariant
            i <= k <= v.len(),
            skip_ws(v@, k as int) == skip_ws(v@, i as int),
        decreases v.len() - k,
    {
        k = k + 1;
    }
    k
}

pub fn rskip_ws_from(v: &Vec<char>, j: usize) -> (r: usize)
    requires
        j <= v.len(),
    ensures
        r == rskip_ws(v@, j as int),
        r <= j,
{
    let mut k = j;
    while k > 0 && is_ws_char(v[k - 1])
        invariant
            k <= j <= v.len(),
            rskip_ws(v@, k as int) == rskip_ws(v@, j as int),
        decreases k,
    {
        k = k - 1;
    }
    k
}

/// The characters `v[lo..hi]`.
pub fn slice(v: &Vec<char>, lo: usize, hi: usize) -> (r: Vec<char>)
    requires
        lo <= hi <= v.len(),
    ensures
        r@ == v@.subrange(lo as int, hi as int),
{
    let mut r: Vec<char> = Vec::new();
    let mut k = lo;
    while k < hi
        invariant
            lo <= k <= hi <= v.len(),
            r@ == v@.subrange(lo as int, k as int),
        decreases hi - k,
    {
        r.push(v[k]);
        k = k + 1;
        assert(r@ =~= v@.subrange(lo as int, k as int));
    }
    r
}

pub fn trim_chars(v: &Vec<char>) -> (r: Vec<char>)
    ensures
        r@ == trim(v@),
{
    let lo = skip_ws_from(v, 0);
    let hi = rskip_ws_from(v, v.len());
    if hi <= lo {
        Vec::new()
    } else {
        slice(v, lo, hi)
    }
}

// ---------------------------------------------------------------------
// Conversions between `String` and characters
// ---------------------------------------------------------------------

/// The characters of `s`, in order.
pub fn chars_of(s: &str) -> (v: Vec<char>)
    ensures
        v@ == s@,
{
    let mut v: Vec<char> = Vec::new();
    for c in it: s.chars()
        invariant
            v@ == it.seq().take(it.index() as int),
            it.seq() == s@,
    {
        v.push(c);
    }
    v
}

/// `String`'s `FromIterator<char>`: the string holding exactly these characters.
#[verifier::external_body]
pub(crate) fn string_of(v: &Vec<char>) -> (s: String)
    ensures
        s@ == v@,
{
    v.iter().collect::<String>()
}

// ---------------------------------------------------------------------
// Searching and splitting
// ---------------------------------------------------------------------

/// `pat` occurs in `s` starting at index `i`.
pub open spec fn occurs_at(s: Seq<char>, i: int, pat: Seq<char>) -> bool {
    0 <= i && i + pat.len() <= s.len() && s.subrange(i, i + pat.len()) == pat
}

pub fn occurs_at_exec(v: &Vec<char>, i: usize, pat: &Vec<char>) -> (b: bool)
    ensures
        b == occurs_at(v@, i as int, pat@),
{
    if i > v.len() || pat.len() > v.len() - i {
        return false;
    }
    let mut k: usize = 0;
    while k < pat.len()
        invariant
            i + pat.len() <= v.len(),
            k <= pat.len(),
            forall|m: int| 0 <= m < k ==> v@[i + m] == pat@[m],
        decreases pat.len() - k,
    {
        if v[i + k] != pat[k] {
            assert(v@.subrange(i as int, i + pat.len())[k as int] != pat@[k as int]);
            return false;
        }
        k = k + 1;
    }
    assert(v@.subrange(i as int, i + pat.len()) =~= pat@);
    true
}

/// The first index at or after `i` whose character satisfies `p`
/// (or `s.len()` when there is none).
pub open spec fn find_from(s: Seq<char>, p: spec_fn(char) -> bool, i: int) -> int
    decreases s.len() - i,
{
    if i < 0 || i >= s.len() {
        if i < 0 {
            0
        } else {
            i
        }
    } else if p(s[i]) {
        i
    } else {
        find_from(s, p, i + 1)
    }
}

pub proof fn lemma_find_from(s: Seq<char>, p: spec_fn(char) -> bool, i: int)
    requires
        0 <= i <= s.len(),
    ensures
        i <= find_from(s, p, i) <= s.len(),
        forall|k: int| i <= k < find_from(s, p, i) ==> !p(#[trigger] s[k]),
        find_from(s, p, i) < s.len() ==> p(s[find_from(s, p, i)]),
    decreases s.len() - i,
{
    if i < s.len() && !p(s[i]) {
        lemma_find_from(s, p, i + 1);
    }
}

/// The character is one of `seps`.
pub open spec fn one_of(seps: Seq<char>) -> spec_fn(char) -> bool {
    |c: char| seps.contains(c)
}

pub fn find_one_of(v: &Vec<char>, seps: &Vec<char>, i: usize) -> (r: usize)
    requires
        i <= v.len(),
    ensures
        r == find_from(v@, one_of(seps@), i as int),
        i <= r <= v.len(),
{
    proof {
        lemma_find_from(v@, one_of(seps@), i as int);
    }
    let mut k = i;
    while k < v.len()
        invariant
            i <= k <= v.len(),
            find_from(v@, one_of(seps@), k as int) == find_from(v@, one_of(seps@), i as int),
        decreases v.len() - k,
    {
        let c = v[k];
        let mut hit = false;
        let mut m: usize = 0;
        while m < seps.len()
            invariant
                m <= seps.len(),
                hit == exists|q: int| 0 <= q < m && seps@[q] == c,
            decreases seps.len() - m,
        {
            if seps[m] == c {
                hit = true;
            }
            m = m + 1;
        }
        assert(hit == seps@.contains(c));
        if hit {
            return k;
        }
        k = k + 1;
    }
    k
}

/// The pieces of `s` between separator characters (those satisfying `p`),
/// starting at index `i`; as `str::split` with a character predicate gives them.
pub open spec fn split_from(s: Seq<char>, p: spec_fn(char) -> bool, i: int) -> Seq<Seq<char>>
    decreases s.len() - i,
{
    let e = find_from(s, p, i);
    if i < 0 || i > s.len() || e >= s.len() {
        seq![s.subrange(i, s.len() as int)]
    } else {
        proof {
            lemma_find_from(s, p, i);
        }
        seq![s.subrange(i, e)] + split_from(s, p, e + 1)
    }
}

pub open spec fn split(s: Seq<char>, p: spec_fn(char) -> bool) -> Seq<Seq<char>> {
    split_from(s, p, 0)
}

pub fn split_chars(v: &Vec<char>, seps: &Vec<char>) -> (r: Vec<Vec<char>>)
    ensures
        r@.map_values(|x: Vec<char>| x@) == split(v@, one_of(seps@)),
{
    let ghost p = one_of(seps@);
    let mut out: Vec<Vec<char>> = Vec::new();
    let mut i: usize = 0;
    loop
        invariant
            i <= v.len(),
            p == one_of(seps@),
            out@.map_values(|x: Vec<char>| x@) + split_from(v@, p, i as int) == split(v@, p),
        decreases v.len() - i,
    {
        let e = find_one_of(v, seps, i);
        proof {
            lemma_find_from(v@, p, i as int);
        }
        let piece = slice(v, i, e);
        let ghost before = out@.map_values(|x: Vec<char>| x@);
        out.push(piece);
        assert(out@.map_values(|x: Vec<char>| x@) =~= before.push(piece@));
        if e >= v.len() {
            assert(split_from(v@, p, i as int) =~= seq![v@.subrange(i as int, v@.len() as int)]);
            assert(before.push(piece@) =~= before + seq![piece@]);
            return out;
        }
        assert(split_from(v@, p, i as int) == seq![v@.subrange(i as int, e as int)]
            + split_from(v@, p, e + 1));
        assert(before.push(piece@) + split_from(v@, p, e + 1) =~= before + split_from(
            v@,
            p,
            i as int,
        ));
        i = e + 1;
    }
}

proof fn lemma_find_shift(pre: Seq<char>, y: Seq<char>, p: spec_fn(char) -> bool, j: int)
    requires
        0 <= j <= y.len(),
    ensures
        find_from(pre + y, p, pre.len() + j) == pre.len() + find_from(y, p, j),
    decreases y.len() - j,
{
    let s = pre + y;
    if j < y.len() {
        assert(s[pre.len() + j] == y[j]);
        if !p(y[j]) {
            lemma_find_shift(pre, y, p, j + 1);
        }
    }
}

proof fn lemma_split_shift(pre: Seq<char>, y: Seq<char>, p: spec_fn(char) -> bool, j: int)
    requires
        0 <= j <= y.len(),
    ensures
        split_from(pre + y, p, pre.len() + j) == split_from(y, p, j),
    decreases y.len() - j,
{
    let s = pre + y;
    lemma_find_shift(pre, y, p, j);
    lemma_find_from(y, p, j);
    let e = find_from(y, p, j);
    if e >= y.len() {
        assert(s.subrange(pre.len() + j, s.len() as int) =~= y.subrange(j, y.len() as int));
    } else {
        assert(s.subrange(pre.len() + j, pre.len() + e) =~= y.subrange(j, e));
        lemma_split_shift(pre, y, p, e + 1);
    }
}

/// A text with no separator is one piece.
pub proof fn lemma_split_none(y: Seq<char>, p: spec_fn(char) -> bool)
    requires
        forall|k: int| 0 <= k < y.len() ==> !p(#[trigger] y[k]),
    ensures
        split(y, p) == seq![y],
{
    lemma_find_from(y, p, 0);
    assert(y.subrange(0, y.len() as int) =~= y);
}

/// Splitting at the first separator: the piece before it, then the pieces of the rest.
pub proof fn lemma_split_sep(x: Seq<char>, sep: char, y: Seq<char>, p: spec_fn(char) -> bool)
    requires
        p(sep),
        forall|k: int| 0 <= k < x.len() ==> !p(#[trigger] x[k]),
    ensures
        split(x + seq![sep] + y, p) == seq![x] + split(y, p),
{
    let s = x + seq![sep] + y;
    lemma_find_from(s, p, 0);
    let e = find_from(s, p, 0);
    assert(s[x.len() as int] == sep);
    if e < x.len() {
        assert(s[e] == x[e]);
    }
    assert(e == x.len());
    assert(s.subrange(0, e) =~= x);
    let pre = x + seq![sep];
    assert(s =~= pre + y);
    lemma_split_shift(pre, y, p, 0);
}

/// The first index at or after `i` where `pat` occurs (or `s.len()` when it
/// occurs nowhere there).
pub open spec fn find_pat(s: Seq<char>, pat: Seq<char>, i: int) -> int
    decreases s.len() - i,
{
    if i < 0 || i >= s.len() {
        s.len() as int
    } else if occurs_at(s, i, pat) {
        i
    } else {
        find_pat(s, pat, i + 1)
    }
}

pub proof fn lemma_find_pat(s: Seq<char>, pat: Seq<char>, i: int)
    requires
        0 <= i <= s.len(),
        pat.len() > 0,
    ensures
        i <= find_pat(s, pat, i) <= s.len(),
        forall|k: int| i <= k < find_pat(s, pat, i) ==> !occurs_at(s, k, pat),
        find_pat(s, pat, i) < s.len() ==> occurs_at(s, find_pat(s, pat, i), pat),
        find_pat(s, pat, i) == s.len() ==> forall|k: int| i <= k ==> !occurs_at(s, k, pat),
    decreases s.len() - i,
{
    if i < s.len() && !occurs_at(s, i, pat) {
        lemma_find_pat(s, pat, i + 1);
    }
}

pub fn find_pat_exec(v: &Vec<char>, pat: &Vec<char>, i: usize) -> (r: usize)
    requires
        i <= v.len(),
    ensures
        r == find_pat(v@, pat@, i as int),
{
    let mut k = i;
    while k < v.len()
        invariant
            i <= k <= v.len(),
            find_pat(v@, pat@, k as int) == find_pat(v@, pat@, i as int),
        decreases v.len() - k,
    {
        if occurs_at_exec(v, k, pat) {
            return k;
        }
        k = k + 1;
    }
    k
}

/// `s` contains `pat` (a non-empty pattern).
pub open spec fn contains_pat(s: Seq<char>, pat: Seq<char>) -> bool {
    find_pat(s, pat, 0) < s.len()
}

/// The pieces of a text between line feeds.
pub open spec fn lines_of(s: Seq<char>) -> Seq<Seq<char>> {
    split(s, one_of(seq!['\n']))
}

pub fn lines_exec(v: &Vec<char>) -> (r: Vec<Vec<char>>)
    ensures
        r@.map_values(|x: Vec<char>| x@) == lines_of(v@),
{
    let seps = vec!['\n'];
    assert(seps@ =~= seq!['\n']);
    split_chars(v, &seps)
}

// ---------------------------------------------------------------------
// Decimal numbers
// ---------------------------------------------------------------------

pub open spec fn digit_char(d: nat) -> char
    recommends
        d < 10,
{
    ((d + '0' as u32) as u32) as char
}

/// The decimal rendering of `n`, without leading zeros.
pub open spec fn decimal(n: nat) -> Seq<char>
    decreases n,
{
    if n < 10 {
        seq![digit_char(n)]
    } else {
        decimal(n / 10).push(digit_char(n % 10))
    }
}

/// The rendering of a signed integer: a minus sign before negative values.
pub open spec fn signed_decimal(n: int) -> Seq<char> {
    if n < 0 {
        seq!['-'] + decimal((-n) as nat)
    } else {
        decimal(n as nat)
    }
}

/// The value of a sequence of ASCII digits.
pub open spec fn digits_value(s: Seq<char>) -> nat
    decreases s.len(),
{
    if s.len() == 0 {
        0
    } else {
        digits_value(s.drop_last()) * 10 + digit_value(s.last())
    }
}

pub open spec fn all_ascii_digits(s: Seq<char>) -> bool {
    forall|i: int| 0 <= i < s.len() ==> is_ascii_digit(#[trigger] s[i])
}

/// What `str::parse` gives for an unsigned integer type whose largest value
/// is `max`: an optional `+`, then one or more ASCII digits, of value at most `max`.
pub open spec fn parse_unsigned(s: Seq<char>, max: nat) -> Option<nat> {
    let digits = if s.len() > 1 && s[0] == '+' {
        s.drop_first()
    } else {
        s
    };
    if digits.len() > 0 && all_ascii_digits(digits) && digits_value(digits) <= max {
        Some(digits_value(digits))
    } else {
        None
    }
}

/// What `str::parse::<i64>` gives: an optional sign, then one or more ASCII
/// digits, of a value in range.
pub open spec fn parse_i64(s: Seq<char>) -> Option<int> {
    if s.len() > 1 && s[0] == '-' {
        let digits = s.drop_first();
        if all_ascii_digits(digits) && digits_value(digits) <= 0x8000_0000_0000_0000 {
            Some(-(digits_value(digits) as int))
        } else {
            None
        }
    } else {
        match parse_unsigned(s, 0x7fff_ffff_ffff_ffff) {
            Some(n) => Some(n as int),
            None => None,
        }
    }
}

pub proof fn lemma_digit_char(d: nat)
    requires
        d < 10,
    ensures
        is_ascii_digit(digit_char(d)),
        digit_value(digit_char(d)) == d,
        d > 0 ==> digit_char(d) != '0',
{
    assert(((d + '0' as u32) as u32) as char as u32 == d + 48);
}

pub proof fn lemma_decimal_digits(n: nat)
    ensures
        decimal(n).len() > 0,
        all_ascii_digits(decimal(n)),
        digits_value(decimal(n)) == n,
        n > 0 ==> decimal(n)[0] != '0',
    decreases n,
{
    if n < 10 {
        lemma_digit_char(n);
        assert(decimal(n).drop_last() =~= Seq::<char>::empty());
        assert(digits_value(Seq::<char>::empty()) == 0);
    } else {
        lemma_decimal_digits(n / 10);
        lemma_digit_char(n % 10);
        let d = decimal(n / 10);
        assert(decimal(n).drop_last() =~= d);
        assert(decimal(n)[0] == d[0]);
        assert(all_ascii_digits(decimal(n))) by {
            assert forall|i: int| 0 <= i < decimal(n).len() implies is_ascii_digit(
                #[trigger] decimal(n)[i],
            ) by {
                if i < d.len() {
                    assert(decimal(n)[i] == d[i]);
                }
            }
        }
        assert(n == (n / 10) * 10 + n % 10) by (nonlinear_arith);
        assert(digits_value(decimal(n)) == (n / 10) * 10 + n % 10);
    }
}

/// `str::parse` gives back the number that `to_string` rendered.
pub proof fn lemma_parse_decimal(n: nat, max: nat)
    requires
        n <= max,
    ensures
        parse_unsigned(decimal(n), max) == Some(n),
{
    lemma_decimal_digits(n);
    if decimal(n).len() > 1 && decimal(n)[0] == '+' {
        assert(is_ascii_digit(decimal(n)[0]));
    }
}

proof fn lemma_digits_value_monotone(s: Seq<char>, i: int, j: int)
    requires
        0 <= i <= j <= s.len(),
        all_ascii_digits(s),
    ensures
        digits_value(s.take(i)) <= digits_value(s.take(j)),
    decreases j - i,
{
    if i < j {
        lemma_digits_value_monotone(s, i, j - 1);
        assert(s.take(j).drop_last() =~= s.take(j - 1));
    }
}

pub fn decimal_u64(n: u64) -> (r: Vec<char>)
    ensures
        r@ == decimal(n as nat),
    decreases n,
{
    if n < 10 {
        let c = ((n as u32) + ('0' as u32)) as u8 as char;
        assert(c == digit_char(n as nat)) by {
            assert((n as u32 + '0' as u32) < 256);
        }
        let r = vec![c];
        assert(r@ =~= seq![digit_char(n as nat)]);
        r
    } else {
        let mut r = decimal_u64(n / 10);
        let d = n % 10;
        let c = ((d as u32) + ('0' as u32)) as u8 as char;
        assert(c == digit_char((n as nat) % 10));
        r.push(c);
        r
    }
}

pub fn signed_decimal_i64(n: i64) -> (r: Vec<char>)
    ensures
        r@ == signed_decimal(n as int),
{
    if n < 0 {
        let m: u64 = (-(n as i128)) as u64;
        let d = decimal_u64(m);
        let mut r = vec!['-'];
        let mut k: usize = 0;
        while k < d.len()
            invariant
                k <= d.len(),
                r@ == seq!['-'] + d@.take(k as int),
            decreases d.len() - k,
        {
            r.push(d[k]);
            k = k + 1;
            assert(r@ =~= seq!['-'] + d@.take(k as int));
        }
        assert(d@.take(d.len() as int) =~= d@);
        r
    } else {
        decimal_u64(n as u64)
    }
}

/// Parses `digits` (ASCII digits only, non-empty) as a number of value at most `max`.
fn parse_digits(v: &Vec<char>, start: usize, max: u64) -> (r: Option<u64>)
    requires
        start <= v.len(),
    ensures
        ({
            let d = v@.skip(start as int);
            match r {
                Some(n) => d.len() > 0 && all_ascii_digits(d) && digits_value(d) <= max
                    && n == digits_value(d),
                None => !(d.len() > 0 && all_ascii_digits(d) && digits_value(d) <= max),
            }
        }),
{
    let ghost d = v@.skip(start as int);
    if start == v.len() {
        return None;
    }
    let mut acc: u64 = 0;
    let mut k: usize = start;
    while k < v.len()
        invariant
            start <= k <= v.len(),
            d == v@.skip(start as int),
            all_ascii_digits(d.take(k - start)),
            acc as nat == digits_value(d.take(k - start)),
            acc <= max,
        decreases v.len() - k,
    {
        let c = v[k];
        if !('0' <= c && c <= '9') {
            assert(d[k - start] == c);
            assert(!all_ascii_digits(d));
            return None;
        }
        let dv: u64 = ((c as u32) - ('0' as u32)) as u64;
        assert(d.take(k - start + 1).drop_last() =~= d.take(k - start));
        assert(d.take(k - start + 1).last() == c);
        let next: u128 = (acc as u128) * 10 + (dv as u128);
        assert(next == digits_value(d.take(k - start + 1)));
        if next > max as u128 {
            // The value of the prefix read so far already exceeds `max`.
            let ghost j = k - start + 1;
            let ghost rest = d.len() as int;
            proof {
                if all_ascii_digits(d) {
                    assert(d.take(j) =~= d.take(j));
                    lemma_digits_value_monotone(d, j, rest);
                    assert(d.take(rest) =~= d);
                }
            }
            return None;
        }
        acc = next as u64;
        k = k + 1;
        assert(all_ascii_digits(d.take(k - start)));
    }
    assert(d.take(v.len() - start) =~= d);
    Some(acc)
}

/// `str::parse` for an unsigned integer type whose largest value is `max`.
pub fn parse_unsigned_exec(v: &Vec<char>, max: u64) -> (r: Option<u64>)
    ensures
        match r {
            Some(n) => parse_unsigned(v@, max as nat) == Some(n as nat),
            None => parse_unsigned(v@, max as nat).is_none(),
        },
{
    let start: usize = if v.len() > 1 && v[0] == '+' {
        1
    } else {
        0
    };
    assert(v@.skip(1) =~= v@.drop_first());
    assert(v@.skip(0) =~= v@);
    parse_digits(v, start, max)
}

/// `str::parse::<i64>`.
pub fn parse_i64_exec(v: &Vec<char>) -> (r: Option<i64>)
    ensures
        match r {
            Some(n) => parse_i64(v@) == Some(n as int),
            None => parse_i64(v@).is_none(),
        },
{
    if v.len() > 1 && v[0] == '-' {
        assert(v@.skip(1) =~= v@.drop_first());
        match parse_digits(v, 1, 0x8000_0000_0000_0000u64) {
            Some(m) => {
                let r: i64 = (-(m as i128)) as i64;
                Some(r)
            },
            None => None,
        }
    } else {
        match parse_unsigned_exec(v, 0x7fff_ffff_ffff_ffffu64) {
            Some(m) => Some(m as i64),
            None => None,
        }
    }
}

// ---------------------------------------------------------------------
// Comparison
// ---------------------------------------------------------------------

/// Lexicographic order on texts, by code point: the order of `String`'s `Ord`
/// (UTF-8 byte order agrees with code-point order).
pub open spec fn text_lt(a: Seq<char>, b: Seq<char>) -> bool
    decreases a.len(),
{
    if a.len() == 0 {
        b.len() > 0
    } else if b.len() == 0 {
        false
    } else if a[0] < b[0] {
        true
    } else if a[0] == b[0] {
        text_lt(a.drop_first(), b.drop_first())
    } else {
        false
    }
}

pub proof fn lemma_text_lt_irreflexive(a: Seq<char>)
    ensures
        !text_lt(a, a),
    decreases a.len(),
{
    if a.len() > 0 {
        lemma_text_lt_irreflexive(a.drop_first());
    }
}

pub proof fn lemma_text_lt_trichotomy(a: Seq<char>, b: Seq<char>)
    ensures
        a == b || text_lt(a, b) || text_lt(b, a),
        !(text_lt(a, b) && text_lt(b, a)),
    decreases a.len(),
{
    if a.len() > 0 && b.len() > 0 {
        if a[0] == b[0] {
            lemma_text_lt_trichotomy(a.drop_first(), b.drop_first());
            if a.drop_first() == b.drop_first() {
                assert(a =~= seq![a[0]] + a.drop_first());
                assert(b =~= seq![b[0]] + b.drop_first());
            }
        }
    } else if a.len() == 0 && b.len() == 0 {
        assert(a =~= b);
    }
}

pub proof fn lemma_text_lt_transitive(a: Seq<char>, b: Seq<char>, c: Seq<char>)
    requires
        text_lt(a, b),
        text_lt(b, c),
    ensures
        text_lt(a, c),
    decreases a.len(),
{
    if a.len() > 0 && b.len() > 0 && c.len() > 0 {
        if a[0] == b[0] && b[0] == c[0] {
            lemma_text_lt_transitive(a.drop_first(), b.drop_first(), c.drop_first());
        }
    }
}

pub fn text_lt_exec(a: &Vec<char>, b: &Vec<char>) -> (r: bool)
    ensures
        r == text_lt(a@, b@),
{
    let mut i: usize = 0;
    assert(a@.skip(0) =~= a@);
    assert(b@.skip(0) =~= b@);
    while i < a.len() && i < b.len() && a[i] == b[i]
        invariant
            i <= a.len(),
            i <= b.len(),
            text_lt(a@, b@) == text_lt(a@.skip(i as int), b@.skip(i as int)),
        decreases a.len() - i,
    {
        assert(a@.skip(i as int).drop_first() =~= a@.skip(i + 1));
        assert(b@.skip(i as int).drop_first() =~= b@.skip(i + 1));
        i = i + 1;
    }
    if i == a.len() {
        i < b.len()
    } else if i == b.len() {
        false
    } else {
        a[i] < b[i]
    }
}

pub fn text_eq_exec(a: &Vec<char>, b: &Vec<char>) -> (r: bool)
    ensures
        r == (a@ == b@),
{
    if a.len() != b.len() {
        return false;
    }
    let mut i: usize = 0;
    while i < a.len()
        invariant
            a.len() == b.len(),
            i <= a.len(),
            forall|k: int| 0 <= k < i ==> a@[k] == b@[k],
        decreases a.len() - i,
    {
        if a[i] != b[i] {
            return false;
        }
        i = i + 1;
    }
    assert(a@ =~= b@);
    true
}

/// The concatenation of `a` and `b`.
pub fn concat(a: &Vec<char>, b: &Vec<char>) -> (r: Vec<char>)
    ensures
        r@ == a@ + b@,
{
    let mut r = a.clone();
    let mut k: usize = 0;
    while k < b.len()
        invariant
            k <= b.len(),
            r@ == a@ + b@.take(k as int),
        decreases b.len() - k,
    {
        r.push(b[k]);
        k = k + 1;
        assert(r@ =~= a@ + b@.take(k as int));
    }
    assert(b@.take(b.len() as int) =~= b@);
    r
}

/// Trimming is idempotent.
pub proof fn lemma_trim_idempotent(s: Seq<char>)
    ensures
        trim(trim(s)) == trim(s),
{
    let t = trim(s);
    lemma_trim_edges(s);
    if t.len() == 0 {
        assert(trim(t) =~= t);
    } else {
        assert(skip_ws(t, 0) == 0);
        assert(rskip_ws(t, t.len() as int) == t.len());
        assert(t.subrange(0, t.len() as int) =~= t);
    }
}

pub open spec fn ascii_lower(c: char) -> char {
    if 'A' <= c && c <= 'Z' {
        ((c as u32) + 32) as char
    } else {
        c
    }
}

/// `str::eq_ignore_ascii_case`.
pub open spec fn eq_ignore_ascii_case(a: Seq<char>, b: Seq<char>) -> bool {
    a.len() == b.len() && forall|i: int| 0 <= i < a.len() ==> ascii_lower(#[trigger] a[i]) == ascii_lower(b[i])
}

pub fn ascii_lower_exec(c: char) -> (r: char)
    ensures
        r == ascii_lower(c),
{
    if 'A' <= c && c <= 'Z' {
        ((c as u32) + 32) as u8 as char
    } else {
        c
    }
}

pub fn eq_ignore_ascii_case_exec(a: &Vec<char>, b: &Vec<char>) -> (r: bool)
    ensures
        r == eq_ignore_ascii_case(a@, b@),
{
    if a.len() != b.len() {
        return false;
    }
    let mut i: usize = 0;
    while i < a.len()
        invariant
            i <= a.len(),
            a.len() == b.len(),
            forall|j: int| 0 <= j < i ==> ascii_lower(#[trigger] a@[j]) == ascii_lower(b@[j]),
        decreases a.len() - i,
    {
        if ascii_lower_exec(a[i]) != ascii_lower_exec(b[i]) {
            return false;
        }
        i = i + 1;
    }
    true
}

} // verus!
