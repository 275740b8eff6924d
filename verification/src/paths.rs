//! Where the stress-net job files live, and the path arithmetic they need.
use vstd::prelude::*;

use crate::text::{chars_of, concat, one_of, split, split_chars, string_of, text_eq_exec};

verus! {

/// How many validators a full stress-net deployment runs.
pub const TARGET_VALIDATORS: u32 = 1023;

/// `rel` joined to `base` as a path (`PathBuf::join`): an absolute `rel`
/// (one that starts with `/`) replaces `base`; otherwise a `/` goes between
/// them unless `base` is empty or already ends in one.
pub open spec fn path_join(base: Seq<char>, rel: Seq<char>) -> Seq<char> {
    if rel.len() > 0 && rel[0] == '/' {
        rel
    } else if base.len() == 0 || base.last() == '/' {
        base + rel
    } else {
        base + seq!['/'] + rel
    }
}

pub fn join_path(base: &str, rel: &str) -> (r: String)
    ensures
        r@ == path_join(base@, rel@),
{
    let b = chars_of(base);
    let r = chars_of(rel);
    if r.len() > 0 && r[0] == '/' {
        return string_of(&r);
    }
    let n = b.len();
    if n == 0 || b[n - 1] == '/' {
        string_of(&concat(&b, &r))
    } else {
        let mut with_sep = b;
        with_sep.push('/');
        string_of(&concat(&with_sep, &r))
    }
}

/// The name a path ends in, from its `/`-separated segments: empty and `.`
/// segments are passed over, and a path that ends in `..` (or has no
/// segment left) has none.
pub open spec fn last_name(segs: Seq<Seq<char>>) -> Option<Seq<char>>
    decreases segs.len(),
{
    if segs.len() == 0 {
        None
    } else if segs.last().len() == 0 || segs.last() == "."@ {
        last_name(segs.drop_last())
    } else if segs.last() == ".."@ {
        None
    } else {
        Some(segs.last())
    }
}

/// `Path::file_name`: the final component of a path, if it is a name.
pub open spec fn file_name_spec(path: Seq<char>) -> Option<Seq<char>> {
    last_name(split(path, one_of(seq!['/'])))
}

pub fn file_name(path: &str) -> (r: Option<String>)
    ensures
        r matches Some(s) ==> file_name_spec(path@) == Some(s@),
        r is None ==> file_name_spec(path@) is None,
{
    let v = chars_of(path);
    let seps = vec!['/'];
    assert(seps@ =~= seq!['/']);
    let segs = split_chars(&v, &seps);
    let ghost all = segs@.map_values(|x: Vec<char>| x@);
    let dot = chars_of(".");
    let dotdot = chars_of("..");
    let mut i = segs.len();
    assert(all.take(i as int) =~= all);
    while i > 0
        invariant
            i <= segs.len(),
            all == segs@.map_values(|x: Vec<char>| x@),
            all == split(v@, one_of(seq!['/'])),
            v@ == path@,
            dot@ == "."@,
            dotdot@ == ".."@,
            last_name(all.take(i as int)) == last_name(all),
        decreases i,
    {
        let seg = &segs[i - 1];
        let ghost t = all.take(i as int);
        assert(t.last() == seg@);
        assert(t.drop_last() =~= all.take(i - 1));
        if seg.len() == 0 || text_eq_exec(seg, &dot) {
            i = i - 1;
        } else if text_eq_exec(seg, &dotdot) {
            return None;
        } else {
            return Some(string_of(seg));
        }
    }
    assert(all.take(0) =~= Seq::<Seq<char>>::empty());
    None
}

/// The file name of a path, or `unknown` where it has none.
pub open spec fn display_name(path: Seq<char>) -> Seq<char> {
    match file_name_spec(path) {
        Some(n) => n,
        None => "unknown"@,
    }
}

pub fn file_name_or_unknown(path: &str) -> (r: String)
    ensures
        r@ == display_name(path@),
{
    match file_name(path) {
        Some(n) => n,
        None => String::from_str("unknown"),
    }
}

/// The job files of a stress-net checkout.
pub struct StressPaths {
    pub app_dir: String,
    pub validators: String,
    pub builders: String,
    pub remainder: String,
}

impl StressPaths {
    /// The job files under `app_dir/stress-net`.
    pub fn new(app_dir: String) -> (r: Self)
        ensures
            r.app_dir@ == app_dir@,
            r.validators@ == path_join(app_dir@, "stress-net/validators.hcl"@),
            r.builders@ == path_join(app_dir@, "stress-net/builders.hcl"@),
            r.remainder@ == path_join(app_dir@, "stress-net/.validators-remainder.hcl"@),
    {
        let validators = join_path(app_dir.as_str(), "stress-net/validators.hcl");
        let builders = join_path(app_dir.as_str(), "stress-net/builders.hcl");
        let remainder = join_path(app_dir.as_str(), "stress-net/.validators-remainder.hcl");
        StressPaths { app_dir, validators, builders, remainder }
    }
}

/// Which directory is the checkout: `APP_DIR` when it is set; else the
/// working directory if it holds `templates/` or `stress-net/`; else its
/// parent if that does; else the working directory.
pub open spec fn app_dir_choice(
    env_dir: Option<Seq<char>>,
    cwd: Seq<char>,
    cwd_marked: bool,
    parent: Option<Seq<char>>,
    parent_marked: bool,
) -> Seq<char> {
    match env_dir {
        Some(d) => d,
        None => if cwd_marked {
            cwd
        } else {
            match parent {
                Some(p) => if parent_marked {
                    p
                } else {
                    cwd
                },
                None => cwd,
            }
        },
    }
}

pub fn choose_app_dir(
    env_dir: Option<String>,
    cwd: String,
    cwd_marked: bool,
    parent: Option<String>,
    parent_marked: bool,
) -> (r: String)
    ensures
        r@ == app_dir_choice(
            match env_dir {
                Some(d) => Some(d@),
                None => None,
            },
            cwd@,
            cwd_marked,
            match parent {
                Some(p) => Some(p@),
                None => None,
            },
            parent_marked,
        ),
{
    match env_dir {
        Some(d) => d,
        None => {
            if cwd_marked {
                cwd
            } else {
                match parent {
                    Some(p) => if parent_marked {
                        p
                    } else {
                        cwd
                    },
                    None => cwd,
                }
            }
        },
    }
}

/// Where generated chains go: `OUTPUT_DIR` when it is set, else
/// `<APP_DIR>/output`.
pub open spec fn output_dir_choice(env_dir: Option<Seq<char>>, app_dir: Seq<char>) -> Seq<char> {
    match env_dir {
        Some(d) => d,
        None => path_join(app_dir, "output"@),
    }
}

pub fn resolved_output_dir(env_dir: Option<String>, app_dir: &str) -> (r: String)
    ensures
        r@ == output_dir_choice(
            match env_dir {
                Some(d) => Some(d@),
                None => None,
            },
            app_dir@,
        ),
{
    match env_dir {
        Some(d) => d,
        None => join_path(app_dir, "output"),
    }
}

} // verus!
