//! Stress-net deployment: which job file to run, how many dispatches reach a
//! validator target, and the meta that each dispatch carries.
use vstd::prelude::*;

use crate::hcl::{
    allowed_meta, count_spec, count_variant_spec, count_variant_text, filter_meta, filter_spec,
    job_name_spec, meta_view, parse_hcl, parse_hcl_spec, texts, JobSpecView, MetaVal, MetaValue,
    ParsedHcl, VariantError,
};
use crate::nomad::{dispatch_cmd, dispatch_spec, join, join_args, register_args, CmdResult};
use crate::paths::{display_name, file_name_or_unknown, StressPaths, TARGET_VALIDATORS};
use crate::strmap::{sorted_entries, StrMap};
use crate::text::{
    chars_of, concat, decimal, decimal_u64, parse_unsigned, parse_unsigned_exec, string_of,
    text_eq_exec,
};

verus! {

/// The two stress-net job files.
#[derive(Clone, Copy, Debug, PartialEq, Eq, Structural)]
pub enum StressKind {
    Validators,
    Builders,
}

/// The name a kind goes by in requests.
pub open spec fn kind_name(k: StressKind) -> Seq<char> {
    match k {
        StressKind::Validators => "validators"@,
        StressKind::Builders => "builders"@,
    }
}

/// The kind a request names, if any.
pub open spec fn kind_named(s: Seq<char>) -> Option<StressKind> {
    if s == "validators"@ {
        Some(StressKind::Validators)
    } else if s == "builders"@ {
        Some(StressKind::Builders)
    } else {
        None
    }
}

impl StressKind {
    pub fn parse(s: &str) -> (r: Option<StressKind>)
        ensures
            r == kind_named(s@),
    {
        let v = chars_of(s);
        if text_eq_exec(&v, &chars_of("validators")) {
            Some(StressKind::Validators)
        } else if text_eq_exec(&v, &chars_of("builders")) {
            Some(StressKind::Builders)
        } else {
            None
        }
    }

    pub fn as_str(self) -> (r: &'static str)
        ensures
            r@ == kind_name(self),
    {
        match self {
            StressKind::Validators => "validators",
            StressKind::Builders => "builders",
        }
    }
}

/// A kind's name parses back to that kind.
pub proof fn lemma_kind_name_parses(k: StressKind)
    ensures
        kind_named(kind_name(k)) == Some(k),
{
    reveal_strlit("validators");
    reveal_strlit("builders");
    assert("validators"@.len() != "builders"@.len());
}

/// The job file of a kind.
pub open spec fn kind_path(paths: StressPaths, kind: StressKind) -> Seq<char> {
    match kind {
        StressKind::Validators => paths.validators@,
        StressKind::Builders => paths.builders@,
    }
}

pub fn stress_path(paths: &StressPaths, kind: StressKind) -> (r: String)
    ensures
        r@ == kind_path(*paths, kind),
{
    match kind {
        StressKind::Validators => paths.validators.clone(),
        StressKind::Builders => paths.builders.clone(),
    }
}

// ---------------------------------------------------------------------
// How many dispatches reach a target
// ---------------------------------------------------------------------

/// How a validator target splits into dispatches of a job that runs `count_per_dispatch`
/// validators each, plus one dispatch of a smaller copy for the rest.
pub struct DispatchPlan {
    pub target: u32,
    pub count_per_dispatch: u32,
    pub full_dispatches: u32,
    pub remainder_count: u32,
    pub total_dispatches: u32,
    pub total_validators: u32,
}

/// The plan's fields, for a target and a positive group size.
pub open spec fn plan_holds(p: DispatchPlan, target: nat, per: nat) -> bool {
    &&& p.target == target
    &&& p.count_per_dispatch == per
    &&& p.full_dispatches == target / per
    &&& p.remainder_count == target % per
    &&& p.total_dispatches == target / per + (if target % per > 0 {
        1int
    } else {
        0int
    })
    &&& p.total_validators == (target / per) * per + target % per
}

/// Full groups and the remainder add up to the target, and the remainder is
/// smaller than a group.
pub proof fn lemma_groups_cover_target(target: nat, per: nat)
    requires
        per > 0,
    ensures
        (target / per) * per + target % per == target,
        target % per < per,
        (target / per) * per <= target,
        target % per > 0 ==> target / per < target,
        forall|i: nat| 1 <= i <= target / per ==> #[trigger] ((i - 1) * per) + per <= target,
{
    vstd::arithmetic::div_mod::lemma_fundamental_div_mod(target as int, per as int);
    assert((target / per) * per == per * (target / per)) by (nonlinear_arith);
    if target % per > 0 {
        assert(target / per <= (target / per) * per) by (nonlinear_arith)
            requires
                per > 0,
        ;
    }
    assert forall|i: nat| 1 <= i <= target / per implies #[trigger] ((i - 1) * per) + per <= target by {
        let full = target / per;
        assert((i - 1) * per + per == i * per) by (nonlinear_arith);
        assert(i * per <= full * per) by (nonlinear_arith)
            requires
                i <= full,
        ;
    }
}

/// The dispatch plan for a target, or none where the group size is zero.
pub fn dispatch_plan(target: u32, per: u32) -> (r: Option<DispatchPlan>)
    ensures
        per == 0 <==> r is None,
        r matches Some(p) ==> plan_holds(p, target as nat, per as nat),
{
    if per == 0 {
        return None;
    }
    proof {
        lemma_groups_cover_target(target as nat, per as nat);
    }
    let full = target / per;
    let rem = target % per;
    let total_dispatches = if rem > 0 {
        full + 1
    } else {
        full
    };
    Some(
        DispatchPlan {
            target,
            count_per_dispatch: per,
            full_dispatches: full,
            remainder_count: rem,
            total_dispatches,
            total_validators: full * per + rem,
        },
    )
}

/// The plan the options report shows: for the full target, with the group
/// count of the validators job file (none without one).
pub fn options_plan(validators_count: Option<u32>) -> (r: Option<DispatchPlan>)
    ensures
        match validators_count {
            Some(c) if c > 0 => r matches Some(p) && plan_holds(p, TARGET_VALIDATORS as nat, c as nat),
            _ => r is None,
        },
{
    let per = match validators_count {
        Some(c) => c,
        None => 0,
    };
    dispatch_plan(TARGET_VALIDATORS, per)
}

// ---------------------------------------------------------------------
// The meta of a group dispatch
// ---------------------------------------------------------------------

/// The group number a request names: a `nomad_group` string that is a `u32`.
pub open spec fn group_of(m: Map<Seq<char>, MetaVal>) -> Option<nat> {
    if m.contains_key("nomad_group"@) {
        match m["nomad_group"@] {
            MetaVal::Str(s) => parse_unsigned(s, u32::MAX as nat),
            _ => None,
        }
    } else {
        None
    }
}

/// The group's meta completed with `validator_base` (its first validator's
/// index) and `group_size`, where the request left them out.
pub open spec fn with_group_defaults(m: Map<Seq<char>, MetaVal>, per: nat) -> Map<Seq<char>, MetaVal> {
    match group_of(m) {
        Some(g) => {
            let base = MetaVal::Str(decimal(((g - 1) * per) as nat));
            let m1 = if m.contains_key("validator_base"@) {
                m
            } else {
                m.insert("validator_base"@, base)
            };
            if m1.contains_key("group_size"@) {
                m1
            } else {
                m1.insert("group_size"@, MetaVal::Str(decimal(per)))
            }
        },
        None => m,
    }
}

/// The group's first validator index is computable: the group is at least 1
/// and its base fits in a `u32`.
pub open spec fn group_fits(m: Map<Seq<char>, MetaVal>, per: nat) -> bool {
    group_of(m) matches Some(g) ==> 1 <= g && (g - 1) * per <= u32::MAX
}

/// The group size of a job file, or `d` without one.
pub open spec fn count_or(count: Option<u32>, d: nat) -> nat {
    match count {
        Some(c) => c as nat,
        None => d,
    }
}

/// The job a stress-net file declares, or `stress-test-1`.
pub open spec fn job_or_default(name: Option<Seq<char>>) -> Seq<char> {
    match name {
        Some(n) => n,
        None => "stress-test-1"@,
    }
}

/// The meta a single dispatch of a stress-net job passes on.
pub open spec fn dispatch_meta(p: JobSpecView, meta: Map<Seq<char>, MetaVal>) -> Map<Seq<char>, MetaVal> {
    with_group_defaults(filter_spec(meta, p.required + p.optional), count_or(p.count, 82))
}

fn add_group_defaults(m: &mut StrMap<MetaValue>, per: u32)
    requires
        old(m).wf(),
        group_fits(meta_view(*old(m)), per as nat),
    ensures
        final(m).wf(),
        meta_view(*final(m)) == with_group_defaults(meta_view(*old(m)), per as nat),
{
    let ghost m0 = meta_view(*m);
    let key = chars_of("nomad_group");
    let group: Option<u64> = match m.get(&key) {
        Some(v) => match v {
            MetaValue::Str(s) => parse_unsigned_exec(&chars_of(s.as_str()), 0xffff_ffffu64),
            _ => None,
        },
        None => None,
    };
    assert(group == match group_of(m0) {
        Some(g) => Some(g as u64),
        None => None::<u64>,
    });
    if let Some(g) = group {
        let base: u64 = (g - 1) * (per as u64);
        let bk = chars_of("validator_base");
        let ghost before = meta_view(*m);
        let bv = MetaValue::Str(string_of(&decimal_u64(base)));
        m.insert_if_absent(bk, bv);
        assert(meta_view(*m) =~= if before.contains_key("validator_base"@) {
            before
        } else {
            before.insert("validator_base"@, bv@)
        });
        let sk = chars_of("group_size");
        let ghost mid = meta_view(*m);
        let sv = MetaValue::Str(string_of(&decimal_u64(per as u64)));
        m.insert_if_absent(sk, sv);
        assert(meta_view(*m) =~= if mid.contains_key("group_size"@) {
            mid
        } else {
            mid.insert("group_size"@, sv@)
        });
    }
}

/// Whether a single dispatch's group arithmetic stays in range (the
/// requirement of `stress_dispatch_args`), for callers to test first.
pub fn dispatch_group_fits(parsed: &ParsedHcl, meta: &StrMap<MetaValue>) -> (b: bool)
    requires
        parsed.wf(),
        meta.wf(),
    ensures
        b == group_fits(
            filter_spec(meta_view(*meta), parsed@.required + parsed@.optional),
            count_or(parsed@.count, 82),
        ),
{
    let per: u32 = match parsed.count {
        Some(c) => c,
        None => 82,
    };
    let allowed = allowed_meta(parsed);
    let filtered = filter_meta(meta, &allowed);
    let key = chars_of("nomad_group");
    let group: Option<u64> = match filtered.get(&key) {
        Some(v) => match v {
            MetaValue::Str(s) => parse_unsigned_exec(&chars_of(s.as_str()), 0xffff_ffffu64),
            _ => None,
        },
        None => None,
    };
    match group {
        Some(g) => {
            if g < 1 {
                return false;
            }
            assert((g - 1) * (per as u64) <= 0xffff_ffffu64 * 0xffff_ffffu64) by (nonlinear_arith)
                requires
                    g - 1 <= 0xffff_ffffu64,
                    per <= 0xffff_ffffu32,
            ;
            (g - 1) * (per as u64) <= 0xffff_ffffu64
        },
        None => true,
    }
}

/// The command line that dispatches one group of a stress-net job file.
pub fn stress_dispatch_args(parsed: &ParsedHcl, meta: &StrMap<MetaValue>, detach: bool) -> (r: Vec<String>)
    requires
        parsed.wf(),
        meta.wf(),
        group_fits(
            filter_spec(meta_view(*meta), parsed@.required + parsed@.optional),
            count_or(parsed@.count, 82),
        ),
    ensures
        texts(r) == dispatch_spec(
            job_or_default(parsed@.job_name),
            sorted_entries(dispatch_meta(parsed@, meta_view(*meta))),
            detach,
        ),
{
    let job = match &parsed.job_name {
        Some(n) => n.clone(),
        None => String::from_str("stress-test-1"),
    };
    let per: u32 = match parsed.count {
        Some(c) => c,
        None => 82,
    };
    let allowed = allowed_meta(parsed);
    let mut filtered = filter_meta(meta, &allowed);
    add_group_defaults(&mut filtered, per);
    dispatch_cmd(job.as_str(), &filtered, detach)
}

// ---------------------------------------------------------------------
// Running a whole target
// ---------------------------------------------------------------------

/// What a run toward a validator target is asked for.
pub struct RunTargetParams<'a> {
    pub target: u32,
    pub meta: &'a StrMap<MetaValue>,
    pub detach: bool,
    pub dry_run: bool,
}

/// One command of a run: its name in the summary and its arguments.
pub struct PlannedStep {
    pub step: String,
    pub args: Vec<String>,
}

pub open spec fn step_view(s: PlannedStep) -> (Seq<char>, Seq<Seq<char>>) {
    (s.step@, texts(s.args))
}

pub open spec fn steps_view(v: Vec<PlannedStep>) -> Seq<(Seq<char>, Seq<Seq<char>>)> {
    v@.map_values(|s: PlannedStep| step_view(s))
}

/// The meta of group `group`: the request's, without its own `nomad_group`,
/// and with the group's number, first validator index and size.
pub open spec fn group_meta(extra: Map<Seq<char>, MetaVal>, group: nat, per: nat) -> Map<Seq<char>, MetaVal> {
    extra.insert("nomad_group"@, MetaVal::Str(decimal(group))).insert(
        "validator_base"@,
        MetaVal::Str(decimal(((group - 1) * per) as nat)),
    ).insert("group_size"@, MetaVal::Str(decimal(per)))
}

/// The meta of group `group` (counted from 1) names the group, the index of
/// its first validator, `(group - 1) * per` (0 for the first group), and the
/// group's size; every other key keeps the request's value, or stays absent.
pub proof fn lemma_group_meta_fields(extra: Map<Seq<char>, MetaVal>, group: nat, per: nat)
    requires
        group >= 1,
    ensures
        group_meta(extra, group, per).contains_key("nomad_group"@),
        group_meta(extra, group, per)["nomad_group"@] == MetaVal::Str(decimal(group)),
        group_meta(extra, group, per).contains_key("validator_base"@),
        group_meta(extra, group, per)["validator_base"@] == MetaVal::Str(decimal(((group - 1) * per) as nat)),
        group_meta(extra, group, per).contains_key("group_size"@),
        group_meta(extra, group, per)["group_size"@] == MetaVal::Str(decimal(per)),
        forall|k: Seq<char>|
            k != "nomad_group"@ && k != "validator_base"@ && k != "group_size"@ ==> (#[trigger] group_meta(
                extra,
                group,
                per,
            ).contains_key(k) <==> extra.contains_key(k)) && (extra.contains_key(k) ==> group_meta(extra, group, per)[k]
                == extra[k]),
{
    reveal_strlit("nomad_group");
    reveal_strlit("validator_base");
    reveal_strlit("group_size");
    assert("nomad_group"@ != "validator_base"@) by {
        assert("nomad_group"@[0] != "validator_base"@[0]);
    }
    assert("nomad_group"@ != "group_size"@) by {
        assert("nomad_group"@[0] != "group_size"@[0]);
    }
    assert("validator_base"@ != "group_size"@) by {
        assert("validator_base"@[0] != "group_size"@[0]);
    }
}

/// The request's meta that every group dispatch carries.
pub open spec fn run_extra_meta(p: JobSpecView, meta: Map<Seq<char>, MetaVal>) -> Map<Seq<char>, MetaVal> {
    filter_spec(meta, p.required + p.optional).remove("nomad_group"@)
}

/// `nomad job run PATH`.
pub open spec fn job_run_args(path: Seq<char>) -> Seq<Seq<char>> {
    seq!["nomad"@, "job"@, "run"@, path]
}

/// The dispatch of full group `i` (counted from 1).
pub open spec fn main_dispatch(
    i: nat,
    job: Seq<char>,
    extra: Map<Seq<char>, MetaVal>,
    per: nat,
    detach: bool,
) -> (Seq<char>, Seq<Seq<char>>) {
    (
        "dispatch-main-"@ + decimal(i),
        dispatch_spec(job, sorted_entries(group_meta(extra, i, per)), detach),
    )
}

pub open spec fn main_dispatches(
    full: nat,
    job: Seq<char>,
    extra: Map<Seq<char>, MetaVal>,
    per: nat,
    detach: bool,
) -> Seq<(Seq<char>, Seq<Seq<char>>)> {
    Seq::new(full, |j: int| main_dispatch((j + 1) as nat, job, extra, per, detach))
}

/// The commands of a run, in order: register the job file, register the
/// remainder copy (if a remainder is left), dispatch each full group, then
/// dispatch the remainder copy once.
pub open spec fn run_steps(
    validators: Seq<char>,
    remainder_file: Seq<char>,
    job: Seq<char>,
    remainder_job: Seq<char>,
    extra: Map<Seq<char>, MetaVal>,
    per: nat,
    full: nat,
    rem: nat,
    detach: bool,
) -> Seq<(Seq<char>, Seq<Seq<char>>)> {
    seq![("register-main"@, job_run_args(validators))] + (if rem > 0 {
        seq![("register-remainder"@, job_run_args(remainder_file))]
    } else {
        Seq::empty()
    }) + main_dispatches(full, job, extra, per, detach) + (if rem > 0 {
        seq![
            (
                "dispatch-remainder"@,
                dispatch_spec(remainder_job, sorted_entries(group_meta(extra, full + 1, per)), detach),
            ),
        ]
    } else {
        Seq::empty()
    })
}

/// Everything a run toward a target does, decided before anything runs.
pub struct RunTargetPlan {
    pub target: u32,
    pub per: u32,
    pub full: u32,
    pub remainder: u32,
    pub main_job: String,
    pub remainder_job: String,
    /// The text of the remainder job file, written before the remainder is
    /// registered; present exactly when a remainder is left.
    pub remainder_file: Option<Result<String, VariantError>>,
    pub steps: Vec<PlannedStep>,
    pub dry_run: bool,
}

/// Why a run cannot start: the validators job file declares no group count.
pub open spec fn no_count_message() -> Seq<char> {
    "could not determine group count in validators.hcl"@
}

/// The remainder file's text, as the plan holds it.
pub open spec fn variant_view(r: Option<Result<String, VariantError>>) -> Option<Result<Seq<char>, VariantError>> {
    match r {
        Some(Ok(s)) => Some(Ok(s@)),
        Some(Err(e)) => Some(Err(e)),
        None => None,
    }
}

/// The plan of a run, given the validators job file's text.
pub open spec fn plan_holds_for(
    plan: RunTargetPlan,
    paths: StressPaths,
    text: Seq<char>,
    target: nat,
    meta: Map<Seq<char>, MetaVal>,
    detach: bool,
    dry_run: bool,
) -> bool {
    let p = parse_hcl_spec(text);
    let per = p.count->0 as nat;
    let job = job_or_default(p.job_name);
    let rjob = job + "-remainder"@;
    &&& plan.target == target
    &&& plan.per == per
    &&& plan.full == target / per
    &&& plan.remainder == target % per
    &&& plan.main_job@ == job
    &&& plan.remainder_job@ == rjob
    &&& plan.dry_run == dry_run
    &&& variant_view(plan.remainder_file) == if target % per > 0 {
        Some(count_variant_spec(text, (target % per) as u32, rjob))
    } else {
        None
    }
    &&& steps_view(plan.steps) == run_steps(
        paths.validators@,
        paths.remainder@,
        job,
        rjob,
        run_extra_meta(p, meta),
        per,
        target / per,
        target % per,
        detach,
    )
}

/// A planned run deploys exactly the target: its full groups and its
/// remainder add up to the target, the remainder is smaller than a group,
/// each full group's validators lie inside the target, and the run is one
/// registration plus one dispatch per full group, and a registration and a
/// dispatch more when a remainder is left.
pub proof fn lemma_run_plan_covers_target(
    plan: RunTargetPlan,
    paths: StressPaths,
    text: Seq<char>,
    target: nat,
    meta: Map<Seq<char>, MetaVal>,
    detach: bool,
    dry_run: bool,
)
    requires
        plan_holds_for(plan, paths, text, target, meta, detach, dry_run),
        count_spec(text) matches Some(c) && c > 0,
    ensures
        plan.full * plan.per + plan.remainder == target,
        plan.remainder < plan.per,
        forall|i: nat| 1 <= i <= plan.full ==> #[trigger] ((i - 1) * plan.per) + plan.per <= target,
        plan.steps.len() == 1 + plan.full + (if plan.remainder > 0 {
            2int
        } else {
            0int
        }),
{
    lemma_groups_cover_target(target, plan.per as nat);
    assert(steps_view(plan.steps).len() == plan.steps.len());
}

/// The remainder copy that a run writes runs exactly the remainder: its group
/// count is the plan's remainder (on the premise of
/// `lemma_recount_sets_count`, that the engine's `\d` holds the ASCII digits),
/// and, where the remainder job's name holds no quote, `$` or line feed, its
/// job is the remainder job (on the premises of
/// `lemma_count_variant_reads_back`).
pub proof fn lemma_remainder_file_runs_remainder(
    plan: RunTargetPlan,
    paths: StressPaths,
    text: Seq<char>,
    target: nat,
    meta: Map<Seq<char>, MetaVal>,
    detach: bool,
    dry_run: bool,
)
    requires
        plan_holds_for(plan, paths, text, target, meta, detach, dry_run),
        count_spec(text) matches Some(c) && c > 0,
        forall|c: char| crate::text::is_ascii_digit(c) ==> #[trigger] crate::hcl::digit_char(c),
    ensures
        plan.remainder_file matches Some(Ok(v)) ==> count_spec(v@) == Some(plan.remainder),
        plan.remainder_file matches Some(Ok(v)) ==> (crate::hcl::digits_apart_from_job_syntax() && forall|k: int|
            0 <= k < plan.remainder_job@.len() ==> #[trigger] plan.remainder_job@[k] != '"'
                && plan.remainder_job@[k] != '$' && plan.remainder_job@[k] != '\n')
            ==> parse_hcl_spec(v@).job_name == Some(plan.remainder_job@),
{
    if let Some(Ok(v)) = plan.remainder_file {
        let p = parse_hcl_spec(text);
        let rjob = job_or_default(p.job_name) + "-remainder"@;
        let n = (target % (plan.per as nat)) as u32;
        assert(count_variant_spec(text, n, rjob) == Ok::<Seq<char>, VariantError>(v@));
        let t2 = crate::hcl::rename_job_spec(text, rjob)->0;
        crate::hcl::lemma_recount_sets_count(t2, n);
        if crate::hcl::digits_apart_from_job_syntax() && forall|k: int|
            0 <= k < rjob.len() ==> #[trigger] rjob[k] != '"' && rjob[k] != '$' && rjob[k] != '\n' {
            assert(rjob.len() > 0) by {
                reveal_strlit("-remainder");
            }
            crate::hcl::lemma_count_variant_reads_back(text, n, rjob);
        }
    }
}

/// The request's own `nomad_group` never reaches a dispatch: the run planned
/// for meta that holds a `nomad_group`, whatever its value, is the run
/// planned for the same meta without it.
pub proof fn lemma_request_group_ignored(
    plan: RunTargetPlan,
    paths: StressPaths,
    text: Seq<char>,
    target: nat,
    meta: Map<Seq<char>, MetaVal>,
    v: MetaVal,
    detach: bool,
    dry_run: bool,
)
    ensures
        plan_holds_for(plan, paths, text, target, meta.insert("nomad_group"@, v), detach, dry_run)
            == plan_holds_for(plan, paths, text, target, meta.remove("nomad_group"@), detach, dry_run),
{
    let p = parse_hcl_spec(text);
    assert(run_extra_meta(p, meta.insert("nomad_group"@, v)) =~= run_extra_meta(
        p,
        meta.remove("nomad_group"@),
    ));
}

/// Whether a step dispatches a full group: its name begins `dispatch-main-`.
pub open spec fn is_main_dispatch(step: (Seq<char>, Seq<Seq<char>>)) -> bool {
    "dispatch-main-"@.is_prefix_of(step.0)
}

/// How many steps dispatch a full group.
pub open spec fn main_dispatch_count(steps: Seq<(Seq<char>, Seq<Seq<char>>)>) -> nat
    decreases steps.len(),
{
    if steps.len() == 0 {
        0
    } else {
        main_dispatch_count(steps.drop_last()) + if is_main_dispatch(steps.last()) {
            1nat
        } else {
            0nat
        }
    }
}

proof fn lemma_main_dispatch_count_add(a: Seq<(Seq<char>, Seq<Seq<char>>)>, b: Seq<(Seq<char>, Seq<Seq<char>>)>)
    ensures
        main_dispatch_count(a + b) == main_dispatch_count(a) + main_dispatch_count(b),
    decreases b.len(),
{
    if b.len() == 0 {
        assert(a + b =~= a);
    } else {
        lemma_main_dispatch_count_add(a, b.drop_last());
        assert((a + b).drop_last() =~= a + b.drop_last());
    }
}

proof fn lemma_main_dispatch_count_one(e: (Seq<char>, Seq<Seq<char>>))
    ensures
        main_dispatch_count(seq![e]) == if is_main_dispatch(e) {
            1nat
        } else {
            0nat
        },
{
    let one = seq![e];
    assert(one.drop_last() =~= Seq::<(Seq<char>, Seq<Seq<char>>)>::empty());
    assert(one.last() == e);
    assert(main_dispatch_count(one.drop_last()) == 0);
}

proof fn lemma_main_dispatches_count(
    full: nat,
    job: Seq<char>,
    extra: Map<Seq<char>, MetaVal>,
    per: nat,
    detach: bool,
)
    ensures
        main_dispatch_count(main_dispatches(full, job, extra, per, detach)) == full,
    decreases full,
{
    reveal_strlit("dispatch-main-");
    if full > 0 {
        let s = main_dispatches(full, job, extra, per, detach);
        assert(s.drop_last() =~= main_dispatches((full - 1) as nat, job, extra, per, detach));
        lemma_main_dispatches_count((full - 1) as nat, job, extra, per, detach);
        let n = "dispatch-main-"@ + decimal(full);
        assert(s.last().0 == n);
        assert(n.subrange(0, 14) =~= "dispatch-main-"@);
    }
}

/// Where a run's full-group dispatches begin: after the registration, and
/// after the remainder's registration when there is one.
pub open spec fn first_main_step(remainder: u32) -> int {
    if remainder > 0 {
        2
    } else {
        1
    }
}

/// A run's full groups are its `dispatch-main-*` steps: they number
/// `target / per`, and they stand one after the other from
/// `first_main_step`, the `i`-th of them (counted from 1) named
/// `dispatch-main-i`; its last step is `dispatch-remainder` exactly when a
/// remainder is left.
pub proof fn lemma_run_dispatch_names(
    plan: RunTargetPlan,
    paths: StressPaths,
    text: Seq<char>,
    target: nat,
    meta: Map<Seq<char>, MetaVal>,
    detach: bool,
    dry_run: bool,
)
    requires
        plan_holds_for(plan, paths, text, target, meta, detach, dry_run),
        count_spec(text) matches Some(c) && c > 0,
    ensures
        main_dispatch_count(steps_view(plan.steps)) == target / (plan.per as nat),
        forall|k: int|
            first_main_step(plan.remainder) <= k < first_main_step(plan.remainder) + plan.full
                ==> (#[trigger] plan.steps[k]).step@ == "dispatch-main-"@ + decimal(
                (k - first_main_step(plan.remainder) + 1) as nat,
            ),
        (plan.steps[plan.steps.len() - 1].step@ == "dispatch-remainder"@) <==> target % (plan.per as nat) > 0,
{
    reveal_strlit("dispatch-main-");
    reveal_strlit("dispatch-remainder");
    reveal_strlit("register-main");
    reveal_strlit("register-remainder");
    let p = parse_hcl_spec(text);
    let per = plan.per as nat;
    let job = job_or_default(p.job_name);
    let rjob = job + "-remainder"@;
    let extra = run_extra_meta(p, meta);
    let full = target / per;
    let rem = target % per;
    let reg = ("register-main"@, job_run_args(paths.validators@));
    let regr = ("register-remainder"@, job_run_args(paths.remainder@));
    let mains = main_dispatches(full, job, extra, per, detach);
    let dr = ("dispatch-remainder"@, dispatch_spec(rjob, sorted_entries(group_meta(extra, full + 1, per)), detach));
    let sv = steps_view(plan.steps);
    lemma_groups_cover_target(target, per);
    assert(sv.len() == plan.steps.len());
    // No name but a full group's begins `dispatch-main-`.
    assert(!is_main_dispatch(reg));
    assert(!is_main_dispatch(regr)) by {
        assert(regr.0.subrange(0, 14)[0] != "dispatch-main-"@[0]);
    }
    assert(!is_main_dispatch(dr)) by {
        assert(dr.0.subrange(0, 14)[9] != "dispatch-main-"@[9]);
    }
    lemma_main_dispatch_count_one(reg);
    lemma_main_dispatch_count_one(regr);
    lemma_main_dispatch_count_one(dr);
    lemma_main_dispatches_count(full, job, extra, per, detach);
    let head = seq![reg] + (if rem > 0 {
        seq![regr]
    } else {
        Seq::empty()
    });
    let tail = if rem > 0 {
        seq![dr]
    } else {
        Seq::empty()
    };
    assert(sv =~= head + mains + tail);
    lemma_main_dispatch_count_add(seq![reg], if rem > 0 {
        seq![regr]
    } else {
        Seq::empty()
    });
    lemma_main_dispatch_count_add(head, mains);
    lemma_main_dispatch_count_add(head + mains, tail);
    assert(main_dispatch_count(Seq::<(Seq<char>, Seq<Seq<char>>)>::empty()) == 0);
    let off = first_main_step(plan.remainder);
    assert forall|k: int| off <= k < off + plan.full implies (#[trigger] plan.steps[k]).step@ == "dispatch-main-"@
        + decimal((k - off + 1) as nat) by {
        assert(sv[k] == step_view(plan.steps[k]));
        assert(sv[k] == mains[k - off]);
    }
    let last = plan.steps.len() - 1;
    assert(sv[last] == step_view(plan.steps[last]));
    if rem == 0 {
        if full > 0 {
            assert(sv[last] == mains[full - 1]);
            let n = "dispatch-main-"@ + decimal(full);
            assert(n[9] != "dispatch-remainder"@[9]);
        } else {
            assert(sv[last] == reg);
            assert("register-main"@[0] != "dispatch-remainder"@[0]);
        }
    }
}

/// In a planned run, the dispatch of full group `i` (counted from 1) sends
/// meta whose `nomad_group` is `i` and whose `validator_base` is
/// `(i - 1) * per`, with `group_size` `per`; the remainder's dispatch sends
/// group `full + 1`, based at `full * per`.
pub proof fn lemma_run_group_meta(
    plan: RunTargetPlan,
    paths: StressPaths,
    text: Seq<char>,
    target: nat,
    meta: Map<Seq<char>, MetaVal>,
    detach: bool,
    dry_run: bool,
)
    requires
        plan_holds_for(plan, paths, text, target, meta, detach, dry_run),
        count_spec(text) matches Some(c) && c > 0,
    ensures
        forall|k: int|
            first_main_step(plan.remainder) <= k < first_main_step(plan.remainder) + plan.full ==> exists|m: Map<
                Seq<char>,
                MetaVal,
            >|
                #![trigger sorted_entries(m)]
                texts((#[trigger] plan.steps[k]).args) == dispatch_spec(plan.main_job@, sorted_entries(m), detach)
                    && m["nomad_group"@] == MetaVal::Str(decimal((k - first_main_step(plan.remainder) + 1) as nat))
                    && m.contains_key("validator_base"@) && m["validator_base"@] == MetaVal::Str(
                    decimal(((k - first_main_step(plan.remainder)) * plan.per) as nat),
                ) && m["group_size"@] == MetaVal::Str(decimal(plan.per as nat)),
        plan.remainder > 0 ==> exists|m: Map<Seq<char>, MetaVal>|
            #![trigger sorted_entries(m)]
            texts(plan.steps[plan.steps.len() - 1].args) == dispatch_spec(plan.remainder_job@, sorted_entries(m), detach)
                && m["nomad_group"@] == MetaVal::Str(decimal((plan.full + 1) as nat)) && m.contains_key(
                "validator_base"@,
            ) && m["validator_base"@] == MetaVal::Str(decimal((plan.full * plan.per) as nat)) && m["group_size"@]
                == MetaVal::Str(decimal(plan.per as nat)),
{
    let p = parse_hcl_spec(text);
    let per = plan.per as nat;
    let job = job_or_default(p.job_name);
    let extra = run_extra_meta(p, meta);
    let full = target / per;
    let rem = target % per;
    let sv = steps_view(plan.steps);
    lemma_groups_cover_target(target, per);
    assert(sv.len() == plan.steps.len());
    let off = first_main_step(plan.remainder);
    let mains = main_dispatches(full, job, extra, per, detach);
    assert forall|k: int| off <= k < off + plan.full implies exists|m: Map<Seq<char>, MetaVal>|
        #![trigger sorted_entries(m)]
        texts((#[trigger] plan.steps[k]).args) == dispatch_spec(plan.main_job@, sorted_entries(m), detach)
            && m["nomad_group"@] == MetaVal::Str(decimal((k - off + 1) as nat)) && m.contains_key("validator_base"@)
            && m["validator_base"@] == MetaVal::Str(decimal(((k - off) * plan.per) as nat)) && m["group_size"@]
            == MetaVal::Str(decimal(plan.per as nat)) by {
        let g = (k - off + 1) as nat;
        let m = group_meta(extra, g, per);
        lemma_group_meta_fields(extra, g, per);
        assert(sv[k] == step_view(plan.steps[k]));
        assert(sv[k] == mains[k - off]);
        assert(((g - 1) * per) as nat == ((k - off) * plan.per) as nat);
        assert(texts(plan.steps[k].args) == dispatch_spec(plan.main_job@, sorted_entries(m), detach));
    }
    if plan.remainder > 0 {
        let last = plan.steps.len() - 1;
        let m = group_meta(extra, full + 1, per);
        lemma_group_meta_fields(extra, full + 1, per);
        assert(sv[last] == step_view(plan.steps[last]));
        assert(((full + 1 - 1) * per) as nat == (plan.full * plan.per) as nat);
        assert(texts(plan.steps[last].args) == dispatch_spec(plan.remainder_job@, sorted_entries(m), detach));
    }
}

fn push_step(steps: &mut Vec<PlannedStep>, name: String, args: Vec<String>)
    ensures
        steps_view(*final(steps)) == steps_view(*old(steps)).push((name@, texts(args))),
{
    let ghost before = steps_view(*steps);
    steps.push(PlannedStep { step: name, args });
    assert(steps_view(*steps) =~= before.push((name@, texts(args))));
}

/// The meta of group `group` of a run.
fn group_meta_exec(meta: &StrMap<MetaValue>, allowed: &Vec<String>, group: u64, per: u32) -> (r: StrMap<MetaValue>)
    requires
        meta.wf(),
        1 <= group,
        (group - 1) * per <= u32::MAX,
    ensures
        r.wf(),
        meta_view(r) == group_meta(
            filter_spec(meta_view(*meta), texts(*allowed)).remove("nomad_group"@),
            group as nat,
            per as nat,
        ),
{
    let mut m = filter_meta(meta, allowed);
    let ghost m0 = meta_view(m);
    m.remove(&chars_of("nomad_group"));
    assert(meta_view(m) =~= m0.remove("nomad_group"@));
    let ghost m1 = meta_view(m);
    let gv = MetaValue::Str(string_of(&decimal_u64(group)));
    m.insert(chars_of("nomad_group"), gv);
    assert(meta_view(m) =~= m1.insert("nomad_group"@, gv@));
    let ghost m2 = meta_view(m);
    let base: u64 = (group - 1) * (per as u64);
    let bv = MetaValue::Str(string_of(&decimal_u64(base)));
    m.insert(chars_of("validator_base"), bv);
    assert(meta_view(m) =~= m2.insert("validator_base"@, bv@));
    let ghost m3 = meta_view(m);
    let sv = MetaValue::Str(string_of(&decimal_u64(per as u64)));
    m.insert(chars_of("group_size"), sv);
    assert(meta_view(m) =~= m3.insert("group_size"@, sv@));
    m
}

/// Plans a run toward `params.target` validators from the validators job
/// file's text: fails where the file declares no (or a zero) group count.
pub fn plan_run_target(paths: &StressPaths, validators_text: &str, params: &RunTargetParams) -> (r: Result<RunTargetPlan, String>)
    requires
        params.meta.wf(),
    ensures
        match count_spec(validators_text@) {
            Some(c) if c > 0 => r matches Ok(plan) && plan_holds_for(
                plan,
                *paths,
                validators_text@,
                params.target as nat,
                meta_view(*params.meta),
                params.detach,
                params.dry_run,
            ),
            _ => r matches Err(e) && e@ == no_count_message(),
        },
{
    let parsed = parse_hcl(validators_text);
    let ghost p = parse_hcl_spec(validators_text@);
    let per: u32 = match parsed.count {
        Some(c) => c,
        None => 0,
    };
    if per == 0 {
        return Err(String::from_str("could not determine group count in validators.hcl"));
    }
    let job = match &parsed.job_name {
        Some(n) => n.clone(),
        None => String::from_str("stress-test-1"),
    };
    let rjob = string_of(&concat(&chars_of(job.as_str()), &chars_of("-remainder")));
    let allowed = allowed_meta(&parsed);
    let target = params.target;
    proof {
        lemma_groups_cover_target(target as nat, per as nat);
    }
    let full = target / per;
    let rem = target % per;
    let ghost extra = run_extra_meta(p, meta_view(*params.meta));
    let ghost tail = if rem > 0 {
        seq![
            (
                "dispatch-remainder"@,
                dispatch_spec(rjob@, sorted_entries(group_meta(extra, (full + 1) as nat, per as nat)), params.detach),
            ),
        ]
    } else {
        Seq::empty()
    };

    let mut steps: Vec<PlannedStep> = Vec::new();
    push_step(&mut steps, String::from_str("register-main"), register_args(paths.validators.as_str()));
    let remainder_file = if rem > 0 {
        push_step(
            &mut steps,
            String::from_str("register-remainder"),
            register_args(paths.remainder.as_str()),
        );
        Some(count_variant_text(validators_text, rem, rjob.as_str()))
    } else {
        None
    };
    let ghost head = steps_view(steps);
    assert(main_dispatches(0, job@, extra, per as nat, params.detach) =~= Seq::empty());
    let mut i: u64 = 1;
    while i <= full as u64
        invariant
            1 <= i <= full as u64 + 1,
            full == target / per,
            per > 0,
            (full as nat) * (per as nat) <= target,
            params.meta.wf(),
            extra == filter_spec(meta_view(*params.meta), texts(allowed)).remove("nomad_group"@),
            steps_view(steps) == head + main_dispatches((i - 1) as nat, job@, extra, per as nat, params.detach),
        decreases full as u64 + 1 - i,
    {
        assert((i - 1) * per <= full * per) by (nonlinear_arith)
            requires
                i - 1 <= full,
        ;
        let m = group_meta_exec(params.meta, &allowed, i, per);
        let args = dispatch_cmd(job.as_str(), &m, params.detach);
        let name = string_of(&concat(&chars_of("dispatch-main-"), &decimal_u64(i)));
        let ghost before = steps_view(steps);
        push_step(&mut steps, name, args);
        assert(main_dispatches(i as nat, job@, extra, per as nat, params.detach) =~= main_dispatches(
            (i - 1) as nat,
            job@,
            extra,
            per as nat,
            params.detach,
        ).push(main_dispatch(i as nat, job@, extra, per as nat, params.detach)));
        i = i + 1;
    }
    if rem > 0 {
        let m = group_meta_exec(params.meta, &allowed, full as u64 + 1, per);
        let args = dispatch_cmd(rjob.as_str(), &m, params.detach);
        push_step(&mut steps, String::from_str("dispatch-remainder"), args);
    }
    assert(steps_view(steps) =~= run_steps(
        paths.validators@,
        paths.remainder@,
        job@,
        rjob@,
        extra,
        per as nat,
        full as nat,
        rem as nat,
        params.detach,
    ));
    Ok(
        RunTargetPlan {
            target,
            per,
            full,
            remainder: rem,
            main_job: job,
            remainder_job: rjob,
            remainder_file,
            steps,
            dry_run: params.dry_run,
        },
    )
}

/// What one command of a run reports.
pub enum StepRecord {
    /// A dry run: the command that would have run.
    DryRun { step: String, cmd: String },
    /// The command ran.
    Ran { step: String, result: CmdResult },
}

/// What a run reports: the plan's numbers and each command's record.
pub struct RunSummary {
    pub target: u32,
    pub count_per_dispatch: u32,
    pub full_dispatches: u32,
    pub remainder_count: u32,
    pub total_validators: u32,
    pub main_job: String,
    pub remainder_job: Option<String>,
    pub dry_run: bool,
    pub steps: Vec<StepRecord>,
}

pub struct RunTargetResult {
    pub summary: RunSummary,
    /// Some command ran and exited with a non-zero code.
    pub failed: bool,
}

/// A command's record: on a dry run its command line, else what it reported.
pub open spec fn record_matches(rec: StepRecord, step: PlannedStep, dry_run: bool, res: CmdResult) -> bool {
    if dry_run {
        rec matches StepRecord::DryRun { step: s, cmd } && s@ == step.step@ && cmd@ == join(
            texts(step.args),
            seq![' '],
        )
    } else {
        rec matches StepRecord::Ran { step: s, result } && s@ == step.step@ && result == res
    }
}

fn copy_result(r: &CmdResult) -> (c: CmdResult)
    ensures
        c == *r,
{
    CmdResult {
        cmd: r.cmd.clone(),
        returncode: r.returncode,
        stdout: r.stdout.clone(),
        stderr: r.stderr.clone(),
    }
}

/// The report of a run whose commands have been carried out in the plan's
/// order: `results[i]` is what command `i` reported (nothing runs on a dry run).
pub fn stress_run_target(plan: RunTargetPlan, results: Vec<CmdResult>) -> (r: RunTargetResult)
    requires
        plan.dry_run || results.len() == plan.steps.len(),
        plan.full * plan.per + plan.remainder <= u32::MAX,
    ensures
        r.summary.target == plan.target,
        r.summary.count_per_dispatch == plan.per,
        r.summary.full_dispatches == plan.full,
        r.summary.remainder_count == plan.remainder,
        r.summary.total_validators == plan.full * plan.per + plan.remainder,
        r.summary.main_job == plan.main_job,
        r.summary.remainder_job == if plan.remainder > 0 {
            Some(plan.remainder_job)
        } else {
            None
        },
        r.summary.dry_run == plan.dry_run,
        r.summary.steps.len() == plan.steps.len(),
        forall|i: int|
            0 <= i < plan.steps.len() ==> record_matches(
                #[trigger] r.summary.steps[i],
                plan.steps[i],
                plan.dry_run,
                results[i],
            ),
        r.failed == (!plan.dry_run && exists|i: int|
            0 <= i < results.len() && #[trigger] results[i].returncode != 0),
{
    let mut recs: Vec<StepRecord> = Vec::new();
    let mut failed = false;
    let mut i: usize = 0;
    while i < plan.steps.len()
        invariant
            i <= plan.steps.len(),
            plan.dry_run || results.len() == plan.steps.len(),
            recs.len() == i,
            forall|j: int|
                0 <= j < i ==> record_matches(#[trigger] recs[j], plan.steps[j], plan.dry_run, results[j]),
            failed == (!plan.dry_run && exists|j: int| 0 <= j < i && #[trigger] results[j].returncode != 0),
        decreases plan.steps.len() - i,
    {
        let st = &plan.steps[i];
        if plan.dry_run {
            recs.push(StepRecord::DryRun { step: st.step.clone(), cmd: join_args(&st.args) });
        } else {
            let res = copy_result(&results[i]);
            if res.returncode != 0 {
                failed = true;
            }
            recs.push(StepRecord::Ran { step: st.step.clone(), result: res });
        }
        i = i + 1;
    }
    proof {
        if !plan.dry_run && exists|j: int| 0 <= j < results.len() && #[trigger] results[j].returncode != 0 {
            let j = choose|j: int| 0 <= j < results.len() && #[trigger] results[j].returncode != 0;
            assert(0 <= j < i);
        }
    }
    let remainder_job = if plan.remainder > 0 {
        Some(plan.remainder_job)
    } else {
        None
    };
    RunTargetResult {
        summary: RunSummary {
            target: plan.target,
            count_per_dispatch: plan.per,
            full_dispatches: plan.full,
            remainder_count: plan.remainder,
            total_validators: plan.full * plan.per + plan.remainder,
            main_job: plan.main_job,
            remainder_job,
            dry_run: plan.dry_run,
            steps: recs,
        },
        failed,
    }
}

// ---------------------------------------------------------------------
// Messages
// ---------------------------------------------------------------------

/// `NAME not found`, for a job file that is not there.
pub fn not_found_message(path: &str) -> (r: String)
    ensures
        r@ == display_name(path@) + " not found"@,
{
    let name = file_name_or_unknown(path);
    string_of(&concat(&chars_of(name.as_str()), &chars_of(" not found")))
}

/// `job spec missing for kind=KIND`.
pub fn missing_spec_message(kind: StressKind) -> (r: String)
    ensures
        r@ == "job spec missing for kind="@ + kind_name(kind),
{
    string_of(&concat(&chars_of("job spec missing for kind="), &chars_of(kind.as_str())))
}

/// Why the remainder copy of a job file could not be written.
pub open spec fn variant_error_text(e: VariantError, path: Seq<char>) -> Seq<char> {
    match e {
        VariantError::NoJobStanza => "could not find job stanza in "@ + path,
        VariantError::NoGroupCount => "could not find group count in "@ + path,
    }
}

pub fn variant_error_message(e: &VariantError, path: &str) -> (r: String)
    ensures
        r@ == variant_error_text(*e, path@),
{
    let head = match e {
        VariantError::NoJobStanza => chars_of("could not find job stanza in "),
        VariantError::NoGroupCount => chars_of("could not find group count in "),
    };
    string_of(&concat(&head, &chars_of(path)))
}

// ---------------------------------------------------------------------
// Status of the job files
// ---------------------------------------------------------------------

/// What the status report says of one job file.
pub enum StatusEntry {
    /// The file is not there.
    Missing,
    /// The file could not be read: the error's message.
    ReadError(String),
    /// The file declares no job.
    NoJobStanza,
    /// `nomad status JOB` ran and reported this.
    Checked { job: String, result: CmdResult },
}

/// Which job to ask `nomad status` about, from what reading a job file gave
/// (`None` when the file is missing): its job name; or, where there is none
/// to ask about, the report's entry.
pub fn status_job(read: Option<Result<String, String>>) -> (r: Result<String, StatusEntry>)
    ensures
        match read {
            None => r matches Err(StatusEntry::Missing),
            Some(Err(e)) => r matches Err(StatusEntry::ReadError(m)) && m@ == e@,
            Some(Ok(text)) => match job_name_spec(text@) {
                Some(n) => r matches Ok(j) && j@ == n,
                None => r matches Err(StatusEntry::NoJobStanza),
            },
        },
{
    match read {
        None => Err(StatusEntry::Missing),
        Some(Err(e)) => Err(StatusEntry::ReadError(e)),
        Some(Ok(text)) => {
            let parsed = parse_hcl(text.as_str());
            match parsed.job_name {
                Some(n) => Ok(n),
                None => Err(StatusEntry::NoJobStanza),
            }
        },
    }
}

} // verus!
