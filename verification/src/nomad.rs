//! Command lines for the `nomad` CLI, and what a finished command reports.
use vstd::prelude::*;

use crate::hcl::{meta_is_empty, meta_text, meta_value_as_str, meta_view, texts, value_is_empty, MetaVal, MetaValue};
use crate::strmap::{entries_map, keys_sorted, lemma_sorted_entries_of, lookup, sorted_entries, StrMap};
use crate::text::{chars_of, concat, find_from, is_ws, lemma_find_from, lines_exec, lines_of, occurs_at, string_of, trim, trim_chars};

verus! {

/// What a finished (or failed) command reports.
pub struct CmdResult {
    pub cmd: String,
    pub returncode: i32,
    pub stdout: String,
    pub stderr: String,
}

/// How running a command ended.
pub enum CmdOutcome {
    /// The process ran and exited, with its exit code unless a signal ended it.
    Exited { code: Option<i32>, stdout: String, stderr: String },
    /// The process could not be started.
    SpawnFailed { not_found: bool, message: String },
    /// The process did not finish in time.
    TimedOut,
}

/// `texts` joined with `sep` between them.
pub open spec fn join(texts: Seq<Seq<char>>, sep: Seq<char>) -> Seq<char>
    decreases texts.len(),
{
    if texts.len() == 0 {
        Seq::empty()
    } else if texts.len() == 1 {
        texts[0]
    } else {
        join(texts.drop_last(), sep) + sep + texts.last()
    }
}

/// The arguments joined by single spaces.
pub fn join_args(args: &Vec<String>) -> (r: String)
    ensures
        r@ == join(texts(*args), seq![' ']),
{
    let ghost ts = texts(*args);
    let mut out: Vec<char> = Vec::new();
    let mut i: usize = 0;
    while i < args.len()
        invariant
            i <= args.len(),
            ts == texts(*args),
            out@ == join(ts.take(i as int), seq![' ']),
        decreases args.len() - i,
    {
        let a = chars_of(args[i].as_str());
        assert(ts.take(i + 1).drop_last() =~= ts.take(i as int));
        if i > 0 {
            out.push(' ');
        }
        out = concat(&out, &a);
        proof {
            if i == 0 {
                assert(ts.take(1) =~= seq![ts[0]]);
                assert(out@ =~= ts[0]);
            }
        }
        i = i + 1;
    }
    assert(ts.take(args.len() as int) =~= ts);
    string_of(&out)
}

/// What a command reports: its command line, and the exit code (-1 when a
/// signal ended it, 127 when the program was not found, 1 when it could not
/// be started otherwise, 124 when it timed out) with its output.
pub fn cmd_result_from(args: &Vec<String>, outcome: CmdOutcome) -> (r: CmdResult)
    ensures
        r.cmd@ == join(texts(*args), seq![' ']),
        match outcome {
            CmdOutcome::Exited { code, stdout, stderr } => r.returncode == (match code {
                Some(c) => c as int,
                None => -1int,
            }) && r.stdout@ == stdout@ && r.stderr@ == stderr@,
            CmdOutcome::SpawnFailed { not_found, message } => r.returncode == (if not_found {
                127int
            } else {
                1int
            }) && r.stdout@.len() == 0 && r.stderr@ == message@,
            CmdOutcome::TimedOut => r.returncode == 124 && r.stdout@.len() == 0 && r.stderr@
                == "[timeout]"@,
        },
{
    let cmd = join_args(args);
    match outcome {
        CmdOutcome::Exited { code, stdout, stderr } => CmdResult {
            cmd,
            returncode: match code {
                Some(c) => c,
                None => -1,
            },
            stdout,
            stderr,
        },
        CmdOutcome::SpawnFailed { not_found, message } => CmdResult {
            cmd,
            returncode: if not_found {
                127
            } else {
                1
            },
            stdout: String::new(),
            stderr: message,
        },
        CmdOutcome::TimedOut => CmdResult {
            cmd,
            returncode: 124,
            stdout: String::new(),
            stderr: String::from_str("[timeout]"),
        },
    }
}

/// The program a command line runs: its first word, or `nomad`.
pub fn program_of(args: &Vec<String>) -> (r: String)
    ensures
        r@ == if args.len() > 0 {
            args@[0]@
        } else {
            "nomad"@
        },
{
    if args.len() > 0 {
        args[0].clone()
    } else {
        String::from_str("nomad")
    }
}

fn push_str(v: &mut Vec<String>, s: &str)
    ensures
        texts(*final(v)) == texts(*old(v)).push(s@),
{
    let ghost before = texts(*v);
    v.push(String::from_str(s));
    assert(texts(*v) =~= before.push(s@));
}

/// The entries of a meta map in key order, values as mathematical values.
pub open spec fn meta_entries(m: StrMap<MetaValue>) -> Seq<(Seq<char>, MetaVal)> {
    m.pairs().map_values(|e: (Seq<char>, MetaValue)| (e.0, e.1@))
}

/// Entries with their values taken by view.
pub open spec fn viewed_entries(s: Seq<(Seq<char>, MetaValue)>) -> Seq<(Seq<char>, MetaVal)> {
    s.map_values(|e: (Seq<char>, MetaValue)| (e.0, e.1@))
}

proof fn lemma_lookup_viewed(s: Seq<(Seq<char>, MetaValue)>, k: Seq<char>)
    ensures
        lookup(viewed_entries(s), k) == match lookup(s, k) {
            Some(v) => Some(v@),
            None => None::<MetaVal>,
        },
    decreases s.len(),
{
    if s.len() > 0 {
        assert(viewed_entries(s).drop_last() =~= viewed_entries(s.drop_last()));
        lemma_lookup_viewed(s.drop_last(), k);
    }
}

/// The entries of a well-formed meta map are the sorted entries of its view.
pub proof fn lemma_meta_entries_sorted(m: StrMap<MetaValue>)
    requires
        m.wf(),
    ensures
        meta_entries(m) == sorted_entries(meta_view(m)),
{
    let es = meta_entries(m);
    assert(es =~= viewed_entries(m.pairs()));
    assert(keys_sorted(es)) by {
        assert forall|i: int, j: int| 0 <= i < j < es.len() implies crate::text::text_lt(
            #[trigger] es[i].0,
            #[trigger] es[j].0,
        ) by {
            assert(es[i].0 == m.pairs()[i].0);
            assert(es[j].0 == m.pairs()[j].0);
        }
    }
    assert forall|k: Seq<char>| #[trigger] lookup(es, k) == match lookup(m.pairs(), k) {
        Some(v) => Some(v@),
        None => None::<MetaVal>,
    } by {
        lemma_lookup_viewed(m.pairs(), k);
    }
    assert(entries_map(es) =~= meta_view(m)) by {
        assert forall|k: Seq<char>| #[trigger] entries_map(es).contains_key(k) == meta_view(m).contains_key(k) by {
            assert(lookup(es, k) is Some == lookup(m.pairs(), k) is Some);
        }
        assert forall|k: Seq<char>| #[trigger] entries_map(es).contains_key(k) implies entries_map(es)[k] == meta_view(m)[k] by {
            assert(lookup(es, k) is Some == lookup(m.pairs(), k) is Some);
        }
    }
    lemma_sorted_entries_of(es);
}

/// `-meta KEY=VALUE` for each non-empty entry, in order.
pub open spec fn meta_args(entries: Seq<(Seq<char>, MetaVal)>) -> Seq<Seq<char>>
    decreases entries.len(),
{
    if entries.len() == 0 {
        Seq::empty()
    } else {
        let e = entries.last();
        let rest = meta_args(entries.drop_last());
        if meta_is_empty(e.1) {
            rest
        } else {
            rest + seq!["-meta"@, e.0 + seq!['='] + meta_text(e.1)]
        }
    }
}

/// The command line that dispatches the parameterized job `job_name`.
pub open spec fn dispatch_spec(job_name: Seq<char>, entries: Seq<(Seq<char>, MetaVal)>, detach: bool) -> Seq<Seq<char>> {
    seq!["nomad"@, "job"@, "dispatch"@] + (if detach {
        seq!["-detach"@]
    } else {
        Seq::empty()
    }) + meta_args(entries) + seq![job_name]
}

/// `nomad job dispatch [-detach] -meta K=V ... JOB`, with one `-meta` per
/// non-empty value, in key order.
pub fn dispatch_cmd(job_name: &str, meta: &StrMap<MetaValue>, detach: bool) -> (r: Vec<String>)
    requires
        meta.wf(),
    ensures
        texts(r) == dispatch_spec(job_name@, meta_entries(*meta), detach),
        texts(r) == dispatch_spec(job_name@, sorted_entries(meta_view(*meta)), detach),
{
    proof {
        lemma_meta_entries_sorted(*meta);
    }
    let mut cmd: Vec<String> = Vec::new();
    push_str(&mut cmd, "nomad");
    push_str(&mut cmd, "job");
    push_str(&mut cmd, "dispatch");
    if detach {
        push_str(&mut cmd, "-detach");
    }
    let ghost head = texts(cmd);
    let ghost es = meta_entries(*meta);
    assert(es.take(0) =~= Seq::<(Seq<char>, MetaVal)>::empty());
    let mut i: usize = 0;
    while i < meta.len()
        invariant
            i <= meta.pairs().len(),
            es == meta_entries(*meta),
            texts(cmd) == head + meta_args(es.take(i as int)),
        decreases meta.pairs().len() - i,
    {
        let k = meta.key_at(i);
        let v = meta.value_at(i);
        assert(es.take(i + 1).drop_last() =~= es.take(i as int));
        assert(es.take(i + 1).last() == (k@, v@));
        if !value_is_empty(v) {
            push_str(&mut cmd, "-meta");
            let mut arg = k.clone();
            arg.push('=');
            let vt = meta_value_as_str(v);
            let arg = concat(&arg, &vt);
            let ghost before = texts(cmd);
            cmd.push(string_of(&arg));
            assert(texts(cmd) =~= before.push(arg@));
            assert(arg@ =~= k@ + seq!['='] + meta_text(v@));
            assert(head + meta_args(es.take(i + 1)) =~= head + meta_args(es.take(i as int)) + seq!["-meta"@, arg@]);
        } else {
            assert(meta_args(es.take(i + 1)) == meta_args(es.take(i as int)));
        }
        i = i + 1;
    }
    assert(es.take(meta.pairs().len() as int) =~= es);
    let ghost before = texts(cmd);
    cmd.push(String::from_str(job_name));
    assert(texts(cmd) =~= before.push(job_name@));
    cmd
}

/// `nomad job run PATH`.
pub fn register_args(path: &str) -> (r: Vec<String>)
    ensures
        texts(r) == seq!["nomad"@, "job"@, "run"@, path@],
{
    let mut r: Vec<String> = Vec::new();
    push_str(&mut r, "nomad");
    push_str(&mut r, "job");
    push_str(&mut r, "run");
    push_str(&mut r, path);
    assert(texts(r) =~= seq!["nomad"@, "job"@, "run"@, path@]);
    r
}

/// `nomad status JOB`.
pub fn status_args(job: &str) -> (r: Vec<String>)
    ensures
        texts(r) == seq!["nomad"@, "status"@, job@],
{
    let mut r: Vec<String> = Vec::new();
    push_str(&mut r, "nomad");
    push_str(&mut r, "status");
    push_str(&mut r, job);
    assert(texts(r) =~= seq!["nomad"@, "status"@, job@]);
    r
}

/// `nomad job stop -purge -yes -detach JOB`.
pub fn purge_job_args(job_id: &str) -> (r: Vec<String>)
    ensures
        texts(r) == seq!["nomad"@, "job"@, "stop"@, "-purge"@, "-yes"@, "-detach"@, job_id@],
{
    let mut r: Vec<String> = Vec::new();
    push_str(&mut r, "nomad");
    push_str(&mut r, "job");
    push_str(&mut r, "stop");
    push_str(&mut r, "-purge");
    push_str(&mut r, "-yes");
    push_str(&mut r, "-detach");
    push_str(&mut r, job_id);
    assert(texts(r) =~= seq!["nomad"@, "job"@, "stop"@, "-purge"@, "-yes"@, "-detach"@, job_id@]);
    r
}

pub open spec fn ws_p() -> spec_fn(char) -> bool {
    |c: char| is_ws(c)
}

/// The job ID a line of `nomad job status` output names: the first word of
/// a line that is not blank, not the header (`ID ...`) and not a `==>` note.
pub open spec fn status_line_id(line: Seq<char>) -> Option<Seq<char>> {
    let t = trim(line);
    let id = t.take(find_from(t, ws_p(), 0));
    if t.len() == 0 || occurs_at(t, 0, "ID"@) || occurs_at(t, 0, "==>"@) || id.len() == 0 {
        None
    } else {
        Some(id)
    }
}

pub open spec fn status_ids(lines: Seq<Seq<char>>) -> Seq<Seq<char>>
    decreases lines.len(),
{
    if lines.len() == 0 {
        Seq::empty()
    } else {
        match status_line_id(lines.last()) {
            Some(id) => status_ids(lines.drop_last()).push(id),
            None => status_ids(lines.drop_last()),
        }
    }
}

/// Job IDs from `nomad job status` (first column of the table).
pub fn parse_job_status_ids(stdout: &str) -> (r: Vec<String>)
    ensures
        texts(r) == status_ids(lines_of(stdout@)),
{
    let v = chars_of(stdout);
    let lines = lines_exec(&v);
    let ghost ls = lines@.map_values(|x: Vec<char>| x@);
    let id_kw = chars_of("ID");
    let note_kw = chars_of("==>");
    let mut ids: Vec<String> = Vec::new();
    let mut i: usize = 0;
    while i < lines.len()
        invariant
            i <= lines.len(),
            ls == lines@.map_values(|x: Vec<char>| x@),
            ls == lines_of(v@),
            v@ == stdout@,
            id_kw@ == "ID"@,
            note_kw@ == "==>"@,
            texts(ids) == status_ids(ls.take(i as int)),
        decreases lines.len() - i,
    {
        assert(ls.take(i + 1).drop_last() =~= ls.take(i as int));
        assert(ls.take(i + 1).last() == lines@[i as int]@);
        let t = trim_chars(&lines[i]);
        if t.len() == 0 || crate::text::occurs_at_exec(&t, 0, &id_kw) || crate::text::occurs_at_exec(&t, 0, &note_kw) {
        } else {
            let mut e: usize = 0;
            while e < t.len() && !crate::text::is_ws_char(t[e])
                invariant
                    e <= t.len(),
                    find_from(t@, ws_p(), e as int) == find_from(t@, ws_p(), 0),
                decreases t.len() - e,
            {
                e = e + 1;
            }
            let id = crate::text::slice(&t, 0, e);
            assert(id@ =~= t@.take(find_from(t@, ws_p(), 0)));
            if id.len() > 0 {
                let ghost before = texts(ids);
                ids.push(string_of(&id));
                assert(texts(ids) =~= before.push(id@));
            }
        }
        i = i + 1;
    }
    assert(ls.take(lines.len() as int) =~= ls);
    ids
}

} // verus!
