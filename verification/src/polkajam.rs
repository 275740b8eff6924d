//! The `polkajam` tool: its command lines, and reading what `gen-keys` prints.
use vstd::prelude::*;

use crate::hcl::texts;
use crate::nomad::{join, join_args, ws_p};
use crate::paths::{join_path, path_join};
use crate::text::{
    chars_of, concat, contains_pat, occurs_at, find_from, find_one_of, find_pat, find_pat_exec, lemma_find_from,
    lemma_find_pat, lines_exec, lines_of, one_of, signed_decimal, signed_decimal_i64, string_of, trim,
    trim_chars, decimal, decimal_u64,
};

verus! {

/// The keys `polkajam gen-keys` reports for one validator.
pub struct GenKeysOutput {
    pub peer_id: String,
    pub bandersnatch_hex: String,
}

/// The lines of a text, trimmed, without the blank ones.
pub open spec fn nonblank_trimmed(lines: Seq<Seq<char>>) -> Seq<Seq<char>>
    decreases lines.len(),
{
    if lines.len() == 0 {
        Seq::empty()
    } else {
        let rest = nonblank_trimmed(lines.drop_last());
        let t = trim(lines.last());
        if t.len() == 0 {
            rest
        } else {
            rest.push(t)
        }
    }
}

/// The first line that contains `pat`.
pub open spec fn first_with(lines: Seq<Seq<char>>, pat: Seq<char>) -> Option<Seq<char>>
    decreases lines.len(),
{
    if lines.len() == 0 {
        None
    } else if contains_pat(lines[0], pat) {
        Some(lines[0])
    } else {
        first_with(lines.drop_first(), pat)
    }
}

proof fn lemma_first_with_contains(lines: Seq<Seq<char>>, pat: Seq<char>)
    ensures
        first_with(lines, pat) matches Some(l) ==> contains_pat(l, pat),
    decreases lines.len(),
{
    if lines.len() > 0 && !contains_pat(lines[0], pat) {
        lemma_first_with_contains(lines.drop_first(), pat);
    }
}

/// What follows the first `pat` in `line`, up to the next `pat`
/// (`line.split(pat).nth(1)` of a line that contains `pat`).
pub open spec fn after_pat(line: Seq<char>, pat: Seq<char>) -> Seq<char> {
    let start = find_pat(line, pat, 0) + pat.len();
    line.subrange(start, find_pat(line, pat, start))
}

/// The first whitespace-separated word of a text, if it has one.
pub open spec fn first_word(s: Seq<char>) -> Option<Seq<char>> {
    let t = trim(s);
    if t.len() == 0 {
        None
    } else {
        Some(t.take(find_from(t, ws_p(), 0)))
    }
}

/// What `gen-keys` output yields: the word after `Peer ID:` on the first line
/// that has it, and the word after `Bandersnatch key:` likewise.
pub open spec fn gen_keys_spec(out: Seq<char>) -> Result<(Seq<char>, Seq<char>), Seq<char>> {
    let lines = nonblank_trimmed(lines_of(out));
    match (first_with(lines, "Peer ID:"@), first_with(lines, "Bandersnatch key:"@)) {
        (Some(pl), Some(bl)) => match first_word(after_pat(pl, "Peer ID:"@)) {
            None => Err("Failed to parse peer ID from: "@ + pl),
            Some(peer) => match first_word(after_pat(bl, "Bandersnatch key:"@)) {
                None => Err("Failed to parse bandersnatch key from: "@ + bl),
                Some(key) => Ok((peer, key)),
            },
        },
        _ => Err("Failed to parse gen-keys output: "@ + out),
    }
}

fn nonblank_trimmed_exec(lines: &Vec<Vec<char>>) -> (r: Vec<Vec<char>>)
    ensures
        r@.map_values(|x: Vec<char>| x@) == nonblank_trimmed(lines@.map_values(|x: Vec<char>| x@)),
{
    let ghost all = lines@.map_values(|x: Vec<char>| x@);
    let mut r: Vec<Vec<char>> = Vec::new();
    let mut i: usize = 0;
    assert(all.take(0) =~= Seq::<Seq<char>>::empty());
    while i < lines.len()
        invariant
            i <= lines.len(),
            all == lines@.map_values(|x: Vec<char>| x@),
            r@.map_values(|x: Vec<char>| x@) == nonblank_trimmed(all.take(i as int)),
        decreases lines.len() - i,
    {
        let t = trim_chars(&lines[i]);
        assert(all.take(i + 1).drop_last() =~= all.take(i as int));
        assert(all.take(i + 1).last() == lines[i as int]@);
        if t.len() > 0 {
            let ghost before = r@.map_values(|x: Vec<char>| x@);
            r.push(t);
            assert(r@.map_values(|x: Vec<char>| x@) =~= before.push(t@));
        }
        i = i + 1;
    }
    assert(all.take(i as int) =~= all);
    r
}

fn first_with_exec(lines: &Vec<Vec<char>>, pat: &Vec<char>) -> (r: Option<usize>)
    ensures
        match first_with(lines@.map_values(|x: Vec<char>| x@), pat@) {
            Some(l) => r matches Some(i) && i < lines.len() && lines[i as int]@ == l,
            None => r is None,
        },
{
    let ghost all = lines@.map_values(|x: Vec<char>| x@);
    let mut i: usize = 0;
    assert(all.subrange(0, all.len() as int) =~= all);
    while i < lines.len()
        invariant
            i <= lines.len(),
            all == lines@.map_values(|x: Vec<char>| x@),
            first_with(all, pat@) == first_with(all.subrange(i as int, all.len() as int), pat@),
        decreases lines.len() - i,
    {
        let ghost rest = all.subrange(i as int, all.len() as int);
        assert(rest[0] == lines[i as int]@);
        assert(rest.drop_first() =~= all.subrange(i + 1, all.len() as int));
        let line = &lines[i];
        if find_pat_exec(line, pat, 0) < line.len() {
            return Some(i);
        }
        i = i + 1;
    }
    None
}

fn after_pat_exec(line: &Vec<char>, pat: &Vec<char>) -> (r: Vec<char>)
    requires
        pat.len() > 0,
        contains_pat(line@, pat@),
    ensures
        r@ == after_pat(line@, pat@),
{
    proof {
        lemma_find_pat(line@, pat@, 0);
    }
    let p = find_pat_exec(line, pat, 0);
    assert(occurs_at(line@, p as int, pat@));
    let n = line.len();
    assert(p + pat.len() <= n);
    let start = p + pat.len();
    proof {
        lemma_find_pat(line@, pat@, start as int);
    }
    let q = find_pat_exec(line, pat, start);
    crate::text::slice(line, start, q)
}

fn first_word_exec(s: &Vec<char>) -> (r: Option<Vec<char>>)
    ensures
        match first_word(s@) {
            Some(w) => r matches Some(v) && v@ == w,
            None => r is None,
        },
{
    let t = trim_chars(s);
    if t.len() == 0 {
        return None;
    }
    let mut e: usize = 0;
    while e < t.len() && !crate::text::is_ws_char(t[e])
        invariant
            e <= t.len(),
            find_from(t@, ws_p(), e as int) == find_from(t@, ws_p(), 0),
        decreases t.len() - e,
    {
        e = e + 1;
    }
    let w = crate::text::slice(&t, 0, e);
    assert(w@ =~= t@.take(find_from(t@, ws_p(), 0)));
    Some(w)
}

/// Reads the peer id and Bandersnatch key from what `polkajam gen-keys` printed.
pub fn parse_gen_keys_output(stdout: &str) -> (r: Result<GenKeysOutput, String>)
    ensures
        match gen_keys_spec(stdout@) {
            Ok((peer, key)) => r matches Ok(o) && o.peer_id@ == peer && o.bandersnatch_hex@ == key,
            Err(m) => r matches Err(e) && e@ == m,
        },
{
    let out = chars_of(stdout);
    let raw = lines_exec(&out);
    let lines = nonblank_trimmed_exec(&raw);
    let peer_pat = chars_of("Peer ID:");
    let key_pat = chars_of("Bandersnatch key:");
    proof {
        reveal_strlit("Peer ID:");
        reveal_strlit("Bandersnatch key:");
    }
    let pi = first_with_exec(&lines, &peer_pat);
    let bi = first_with_exec(&lines, &key_pat);
    proof {
        lemma_first_with_contains(lines@.map_values(|x: Vec<char>| x@), peer_pat@);
        lemma_first_with_contains(lines@.map_values(|x: Vec<char>| x@), key_pat@);
    }
    match (pi, bi) {
        (Some(pi), Some(bi)) => {
            let pl = &lines[pi];
            let bl = &lines[bi];
            let peer = match first_word_exec(&after_pat_exec(pl, &peer_pat)) {
                Some(w) => w,
                None => {
                    let m = concat(&chars_of("Failed to parse peer ID from: "), pl);
                    return Err(string_of(&m));
                },
            };
            let key = match first_word_exec(&after_pat_exec(bl, &key_pat)) {
                Some(w) => w,
                None => {
                    let m = concat(&chars_of("Failed to parse bandersnatch key from: "), bl);
                    return Err(string_of(&m));
                },
            };
            Ok(GenKeysOutput { peer_id: string_of(&peer), bandersnatch_hex: string_of(&key) })
        },
        _ => {
            let m = concat(&chars_of("Failed to parse gen-keys output: "), &out);
            Err(string_of(&m))
        },
    }
}

// ---------------------------------------------------------------------
// Command lines and messages
// ---------------------------------------------------------------------

/// `-c=OUT_DIR gen-keys FILE`.
pub fn gen_keys_args(out_dir: &str, file_name: &str) -> (r: Vec<String>)
    ensures
        texts(r) == seq!["-c="@ + out_dir@, "gen-keys"@, file_name@],
{
    let mut r: Vec<String> = Vec::new();
    r.push(string_of(&concat(&chars_of("-c="), &chars_of(out_dir))));
    r.push(String::from_str("gen-keys"));
    r.push(string_of(&chars_of(file_name)));
    assert(texts(r) =~= seq!["-c="@ + out_dir@, "gen-keys"@, file_name@]);
    r
}

/// `gen-spec CONFIG SPEC`.
pub fn gen_spec_args(config_path: &str, spec_path: &str) -> (r: Vec<String>)
    ensures
        texts(r) == seq!["gen-spec"@, config_path@, spec_path@],
{
    let mut r: Vec<String> = Vec::new();
    r.push(String::from_str("gen-spec"));
    r.push(string_of(&chars_of(config_path)));
    r.push(string_of(&chars_of(spec_path)));
    assert(texts(r) =~= seq!["gen-spec"@, config_path@, spec_path@]);
    r
}

/// `polkajam ARGS exited CODE: STDERR`, the code being -1 when a signal
/// ended the process.
pub open spec fn failure_text(args: Seq<Seq<char>>, code: Option<i32>, stderr: Seq<char>) -> Seq<char> {
    "polkajam "@ + join(args, seq![' ']) + " exited "@ + signed_decimal(
        match code {
            Some(c) => c as int,
            None => -1,
        },
    ) + ": "@ + trim(stderr)
}

pub fn polkajam_failure_message(args: &Vec<String>, code: Option<i32>, stderr: &str) -> (r: String)
    ensures
        r@ == failure_text(texts(*args), code, stderr@),
{
    let c: i64 = match code {
        Some(c) => c as i64,
        None => -1,
    };
    let joined = join_args(args);
    let head = concat(&chars_of("polkajam "), &chars_of(joined.as_str()));
    let mid = concat(&concat(&head, &chars_of(" exited ")), &signed_decimal_i64(c));
    let t = concat(&concat(&mid, &chars_of(": ")), &trim_chars(&chars_of(stderr)));
    string_of(&t)
}

/// `polkajam timed out after SECSs`.
pub fn polkajam_timeout_message(secs: u64) -> (r: String)
    ensures
        r@ == "polkajam timed out after "@ + decimal(secs as nat) + seq!['s'],
{
    let mut t = concat(&chars_of("polkajam timed out after "), &decimal_u64(secs));
    t.push('s');
    string_of(&t)
}

/// `POLKAJAM_BIN points to a missing file: PATH`.
pub fn missing_bin_message(path: &str) -> (r: String)
    ensures
        r@ == "POLKAJAM_BIN points to a missing file: "@ + path@,
{
    string_of(&concat(&chars_of("POLKAJAM_BIN points to a missing file: "), &chars_of(path)))
}

/// Why no `polkajam` binary could be found, naming where it was looked for.
pub open spec fn not_found_text(app_dir: Seq<char>) -> Seq<char> {
    "polkajam executable not found. Set POLKAJAM_BIN, build target/release/polkajam under "@
        + app_dir
        + ", use Binary build to produce OUTPUT_DIR/cargo-build/\u{2026}/polkajam, or install polkajam on PATH."@
}

pub fn polkajam_not_found_message(app_dir: &str) -> (r: String)
    ensures
        r@ == not_found_text(app_dir@),
{
    let head = concat(
        &chars_of("polkajam executable not found. Set POLKAJAM_BIN, build target/release/polkajam under "),
        &chars_of(app_dir),
    );
    let t = concat(
        &head,
        &chars_of(", use Binary build to produce OUTPUT_DIR/cargo-build/\u{2026}/polkajam, or install polkajam on PATH."),
    );
    string_of(&t)
}

/// The path `which polkajam` printed: its first line, trimmed.
pub open spec fn which_path(out: Seq<char>) -> Seq<char> {
    trim(lines_of(out)[0])
}

pub fn which_output_path(out: &str) -> (r: String)
    ensures
        r@ == which_path(out@),
{
    let v = chars_of(out);
    let lines = lines_exec(&v);
    assert(lines_of(v@).len() > 0);
    assert(lines@.map_values(|x: Vec<char>| x@)[0] == lines[0]@);
    string_of(&trim_chars(&lines[0]))
}

/// Where a release build of `polkajam` lies in a checkout.
pub fn release_bin_path(app_dir: &str) -> (r: String)
    ensures
        r@ == path_join(app_dir@, "target/release/polkajam"@),
{
    join_path(app_dir, "target/release/polkajam")
}

/// The directory that binary builds go to under the output directory.
pub fn cargo_build_dir(output_dir: &str) -> (r: String)
    ensures
        r@ == path_join(output_dir@, "cargo-build"@),
{
    join_path(output_dir, "cargo-build")
}

// ---------------------------------------------------------------------
// Which binary to run
// ---------------------------------------------------------------------

/// An entry of the output directory's `cargo-build` directory, as probed:
/// its path, whether it is a directory, and whether `polkajam` in it is a file.
pub struct BuildCandidate {
    pub entry: String,
    pub entry_is_dir: bool,
    pub binary_is_file: bool,
}

pub open spec fn candidate_views(v: Vec<BuildCandidate>) -> Seq<(Seq<char>, bool, bool)> {
    v@.map_values(|c: BuildCandidate| (c.entry@, c.entry_is_dir, c.binary_is_file))
}

/// The binary of the first entry that is a directory holding a `polkajam` file.
pub open spec fn first_build(cands: Seq<(Seq<char>, bool, bool)>) -> Option<Seq<char>>
    decreases cands.len(),
{
    if cands.len() == 0 {
        None
    } else if cands[0].1 && cands[0].2 {
        Some(path_join(cands[0].0, "polkajam"@))
    } else {
        first_build(cands.drop_first())
    }
}

/// An entry of `cargo-build` that is a directory holding a `polkajam` file.
pub open spec fn holds_binary(c: (Seq<char>, bool, bool)) -> bool {
    c.1 && c.2
}

proof fn lemma_first_build_at(cs: Seq<(Seq<char>, bool, bool)>, i: int)
    requires
        0 <= i < cs.len(),
        holds_binary(cs[i]),
        forall|j: int| 0 <= j < i ==> !holds_binary(#[trigger] cs[j]),
    ensures
        first_build(cs) == Some(path_join(cs[i].0, "polkajam"@)),
    decreases i,
{
    if i > 0 {
        let rest = cs.drop_first();
        assert(!holds_binary(cs[0]));
        assert(rest[i - 1] == cs[i]);
        assert forall|j: int| 0 <= j < i - 1 implies !holds_binary(#[trigger] rest[j]) by {
            assert(rest[j] == cs[j + 1]);
        }
        lemma_first_build_at(rest, i - 1);
    }
}

proof fn lemma_first_build_found(cs: Seq<(Seq<char>, bool, bool)>)
    ensures
        first_build(cs) matches Some(b) ==> exists|i: int|
            0 <= i < cs.len() && holds_binary(#[trigger] cs[i]) && b == path_join(cs[i].0, "polkajam"@) && (forall|j: int|
                0 <= j < i ==> !holds_binary(cs[j])),
    decreases cs.len(),
{
    if cs.len() > 0 && first_build(cs) is Some {
        let b = first_build(cs)->0;
        if holds_binary(cs[0]) {
            assert(holds_binary(cs[0]) && b == path_join(cs[0].0, "polkajam"@));
        } else {
            let rest = cs.drop_first();
            lemma_first_build_found(rest);
            let i = choose|i: int|
                0 <= i < rest.len() && holds_binary(#[trigger] rest[i]) && b == path_join(rest[i].0, "polkajam"@)
                    && (forall|j: int| 0 <= j < i ==> !holds_binary(rest[j]));
            assert(cs[i + 1] == rest[i]);
            assert forall|j: int| 0 <= j < i + 1 implies !holds_binary(cs[j]) by {
                if j > 0 {
                    assert(cs[j] == rest[j - 1]);
                }
            }
            assert(holds_binary(cs[i + 1]) && b == path_join(cs[i + 1].0, "polkajam"@));
        }
    }
}

proof fn lemma_first_build_none(cs: Seq<(Seq<char>, bool, bool)>)
    requires
        forall|i: int| 0 <= i < cs.len() ==> !holds_binary(#[trigger] cs[i]),
    ensures
        first_build(cs) is None,
    decreases cs.len(),
{
    if cs.len() > 0 {
        let rest = cs.drop_first();
        assert(!holds_binary(cs[0]));
        assert forall|i: int| 0 <= i < rest.len() implies !holds_binary(#[trigger] rest[i]) by {
            assert(rest[i] == cs[i + 1]);
        }
        lemma_first_build_none(rest);
    }
}

/// With no `POLKAJAM_BIN` and no release build, the binary chosen among the
/// builds is that of the first build entry that is a directory holding a
/// `polkajam` file; a build path is chosen only for such an entry; and when
/// no entry holds one, no build path is chosen.
pub proof fn lemma_build_choice(app_dir: Seq<char>, builds: Vec<BuildCandidate>, which_out: Option<Seq<char>>)
    ensures
        forall|i: int|
            0 <= i < builds.len() && (#[trigger] builds@[i]).entry_is_dir && builds@[i].binary_is_file && (forall|j: int|
                0 <= j < i ==> !(builds@[j].entry_is_dir && builds@[j].binary_is_file))
                ==> bin_choice_spec(None, app_dir, false, candidate_views(builds), which_out) == Ok::<Seq<char>, Seq<char>>(
                path_join(builds@[i].entry@, "polkajam"@),
            ),
        first_build(candidate_views(builds)) matches Some(b) ==> exists|i: int|
            0 <= i < builds.len() && (#[trigger] builds@[i]).entry_is_dir && builds@[i].binary_is_file && b
                == path_join(builds@[i].entry@, "polkajam"@) && (forall|j: int|
                0 <= j < i ==> !(builds@[j].entry_is_dir && builds@[j].binary_is_file)),
        (forall|i: int| 0 <= i < builds.len() ==> !((#[trigger] builds@[i]).entry_is_dir && builds@[i].binary_is_file))
            ==> first_build(candidate_views(builds)) is None,
{
    let cs = candidate_views(builds);
    lemma_first_build_found(cs);
    assert forall|i: int| 0 <= i < builds.len() implies #[trigger] cs[i] == (
        builds@[i].entry@,
        builds@[i].entry_is_dir,
        builds@[i].binary_is_file,
    ) by {}
    assert forall|i: int|
        0 <= i < builds.len() && (#[trigger] builds@[i]).entry_is_dir && builds@[i].binary_is_file && (forall|j: int|
            0 <= j < i ==> !(builds@[j].entry_is_dir && builds@[j].binary_is_file))
            implies bin_choice_spec(None, app_dir, false, cs, which_out) == Ok::<Seq<char>, Seq<char>>(
            path_join(builds@[i].entry@, "polkajam"@),
        ) by {
        assert(holds_binary(cs[i]));
        assert forall|j: int| 0 <= j < i implies !holds_binary(#[trigger] cs[j]) by {
            assert(cs[j] == (builds@[j].entry@, builds@[j].entry_is_dir, builds@[j].binary_is_file));
        }
        lemma_first_build_at(cs, i);
    }
    if first_build(cs) is Some {
        let b = first_build(cs)->0;
        let i = choose|i: int|
            0 <= i < cs.len() && holds_binary(#[trigger] cs[i]) && b == path_join(cs[i].0, "polkajam"@) && (forall|j: int|
                0 <= j < i ==> !holds_binary(cs[j]));
        assert forall|j: int| 0 <= j < i implies !(builds@[j].entry_is_dir && builds@[j].binary_is_file) by {
            assert(cs[j] == (builds@[j].entry@, builds@[j].entry_is_dir, builds@[j].binary_is_file));
            assert(!holds_binary(cs[j]));
        }
        assert(builds@[i].entry_is_dir && builds@[i].binary_is_file && b == path_join(builds@[i].entry@, "polkajam"@));
    }
    if forall|i: int| 0 <= i < builds.len() ==> !((#[trigger] builds@[i]).entry_is_dir && builds@[i].binary_is_file) {
        assert forall|i: int| 0 <= i < cs.len() implies !holds_binary(#[trigger] cs[i]) by {
            assert(cs[i] == (builds@[i].entry@, builds@[i].entry_is_dir, builds@[i].binary_is_file));
        }
        lemma_first_build_none(cs);
    }
}

/// The `polkajam` binary, in order of preference: `POLKAJAM_BIN` when it is
/// set (which must name a file); a release build in the checkout; the first
/// binary build under the output directory's `cargo-build`; the path `which
/// polkajam` prints (when it succeeded and printed one); else none.
pub open spec fn bin_choice_spec(
    env_bin: Option<(Seq<char>, bool)>,
    app_dir: Seq<char>,
    release_is_file: bool,
    builds: Seq<(Seq<char>, bool, bool)>,
    which_out: Option<Seq<char>>,
) -> Result<Seq<char>, Seq<char>> {
    match env_bin {
        Some((p, is_file)) => if is_file {
            Ok(p)
        } else {
            Err("POLKAJAM_BIN points to a missing file: "@ + p)
        },
        None => if release_is_file {
            Ok(path_join(app_dir, "target/release/polkajam"@))
        } else {
            match first_build(builds) {
                Some(b) => Ok(b),
                None => match which_out {
                    Some(o) => if which_path(o).len() > 0 {
                        Ok(which_path(o))
                    } else {
                        Err(not_found_text(app_dir))
                    },
                    None => Err(not_found_text(app_dir)),
                },
            }
        },
    }
}

/// A chosen binary is one that was found: `POLKAJAM_BIN` when it names a
/// file (and then nothing else is looked at), the release build when it
/// exists, the binary of a build entry that is a directory holding one, or
/// the non-empty path `which` printed. With `POLKAJAM_BIN` set to a missing
/// file, nothing is chosen.
pub proof fn lemma_chosen_binary_was_found(
    env_bin: Option<(Seq<char>, bool)>,
    app_dir: Seq<char>,
    release_is_file: bool,
    builds: Seq<(Seq<char>, bool, bool)>,
    which_out: Option<Seq<char>>,
)
    ensures
        bin_choice_spec(env_bin, app_dir, release_is_file, builds, which_out) matches Ok(p) ==> {
            ||| env_bin == Some((p, true))
            ||| env_bin is None && release_is_file && p == path_join(app_dir, "target/release/polkajam"@)
            ||| env_bin is None && !release_is_file && exists|i: int|
                0 <= i < builds.len() && holds_binary(#[trigger] builds[i]) && p == path_join(builds[i].0, "polkajam"@)
            ||| env_bin is None && !release_is_file && (which_out matches Some(o) && p == which_path(o) && p.len() > 0)
        },
        env_bin matches Some((_, false)) ==> bin_choice_spec(env_bin, app_dir, release_is_file, builds, which_out) is Err,
{
    lemma_first_build_found(builds);
}

/// Chooses the `polkajam` binary from what was probed: `env_bin` is
/// `POLKAJAM_BIN` with whether it names a file, `release_is_file` whether the
/// release build exists, `builds` the entries of `cargo-build` in listing
/// order, and `which_out` what a successful `which polkajam` printed.
pub fn choose_polkajam_bin(
    env_bin: Option<(String, bool)>,
    app_dir: &str,
    release_is_file: bool,
    builds: &Vec<BuildCandidate>,
    which_out: Option<String>,
) -> (r: Result<String, String>)
    ensures
        match bin_choice_spec(
            match env_bin {
                Some((p, f)) => Some((p@, f)),
                None => None,
            },
            app_dir@,
            release_is_file,
            candidate_views(*builds),
            match which_out {
                Some(o) => Some(o@),
                None => None,
            },
        ) {
            Ok(p) => r matches Ok(s) && s@ == p,
            Err(m) => r matches Err(e) && e@ == m,
        },
{
    match env_bin {
        Some((p, is_file)) => {
            if is_file {
                return Ok(p);
            }
            return Err(missing_bin_message(p.as_str()));
        },
        None => {},
    }
    if release_is_file {
        return Ok(release_bin_path(app_dir));
    }
    let ghost cs = candidate_views(*builds);
    let mut i: usize = 0;
    assert(cs.subrange(0, cs.len() as int) =~= cs);
    while i < builds.len()
        invariant
            i <= builds.len(),
            cs == candidate_views(*builds),
            env_bin is None,
            !release_is_file,
            first_build(cs) == first_build(cs.subrange(i as int, cs.len() as int)),
        decreases builds.len() - i,
    {
        let ghost rest = cs.subrange(i as int, cs.len() as int);
        assert(rest[0] == (builds[i as int].entry@, builds[i as int].entry_is_dir, builds[i as int].binary_is_file));
        assert(rest.drop_first() =~= cs.subrange(i + 1, cs.len() as int));
        if builds[i].entry_is_dir && builds[i].binary_is_file {
            assert(rest.len() > 0);
            assert(first_build(rest) == Some(path_join(builds[i as int].entry@, "polkajam"@)));
            return Ok(join_path(builds[i].entry.as_str(), "polkajam"));
        }
        i = i + 1;
    }
    assert(cs.subrange(i as int, cs.len() as int) =~= Seq::<(Seq<char>, bool, bool)>::empty());
    match which_out {
        Some(o) => {
            let line = which_output_path(o.as_str());
            if line.as_str().unicode_len() > 0 {
                return Ok(line);
            }
            Err(polkajam_not_found_message(app_dir))
        },
        None => Err(polkajam_not_found_message(app_dir)),
    }
}

} // verus!
