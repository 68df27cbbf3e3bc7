//! Validation of a resolved representation. Every rule looks at the whole
//! table and reports each breach it finds; none stops at the first.

use vstd::prelude::*;
use vstd::hash_map::StringHashMap;
use crate::hir::{Action, ActionView, Hir, HirView};
use crate::string_map::Entries;
use crate::text::{decimal, joined, starts_with, to_decimal};
use vstd::string::*;

verus! {

/// The most secrets that a workflow file may name.
pub const SECRET_COUNT_LIMIT: usize = 100;

/// The prefix that no environment variable of an action may bear.
pub open spec fn reserved_prefix() -> Seq<char> {
    "GITHUB_"@
}

/// What a rule concludes: `Allow` is less than `Error`.
#[derive(Ord, PartialOrd, Eq, PartialEq, Copy, Clone, Debug, Structural)]
pub enum LintOutcome {
    Allow,
    Error,
}

impl LintOutcome {
    /// The greater of the two outcomes.
    pub open spec fn greater_of(self, other: LintOutcome) -> LintOutcome {
        if self == LintOutcome::Error || other == LintOutcome::Error {
            LintOutcome::Error
        } else {
            LintOutcome::Allow
        }
    }

    pub fn max_assign(&mut self, other: LintOutcome)
        ensures
            *final(self) == old(self).greater_of(other),
    {
        match other {
            LintOutcome::Error => {
                *self = LintOutcome::Error;
            },
            LintOutcome::Allow => {},
        }
    }
}

/// One breach of a rule.
#[derive(Debug, Clone, PartialEq, Eq)]
pub enum LintViolation {
    /// The environment of `action` names the variable `key`, which starts
    /// with the reserved prefix.
    ReservedEnvPrefix { action: String, key: String },
    /// The actions name `count` distinct secrets, more than `limit`.
    TooManySecrets { count: usize, limit: usize },
    /// `action` declares `runs` and leaves it empty.
    EmptyRuns { action: String },
    /// `action` declares `args` and leaves it empty.
    EmptyArgs { action: String },
}

pub enum LintViolationView {
    ReservedEnvPrefix { action: Seq<char>, key: Seq<char> },
    TooManySecrets { count: nat, limit: nat },
    EmptyRuns { action: Seq<char> },
    EmptyArgs { action: Seq<char> },
}

impl DeepView for LintViolation {
    type V = LintViolationView;

    open spec fn deep_view(&self) -> LintViolationView {
        match self {
            LintViolation::ReservedEnvPrefix { action, key } => LintViolationView::ReservedEnvPrefix {
                action: action@,
                key: key@,
            },
            LintViolation::TooManySecrets { count, limit } => LintViolationView::TooManySecrets {
                count: *count as nat,
                limit: *limit as nat,
            },
            LintViolation::EmptyRuns { action } => LintViolationView::EmptyRuns { action: action@ },
            LintViolation::EmptyArgs { action } => LintViolationView::EmptyArgs { action: action@ },
        }
    }
}

impl LintViolationView {
    /// What the breach says.
    pub open spec fn message(self) -> Seq<char> {
        match self {
            LintViolationView::ReservedEnvPrefix { action, key } => "Error: in action '"@ + action
                + "': in env var '"@ + key + "': var name starts with reserved prefix GITHUB_"@,
            LintViolationView::TooManySecrets { count, limit } => "Error: you are using "@
                + decimal(count) + " secrets, which exceeds GitHub limit of "@ + decimal(limit),
            LintViolationView::EmptyRuns { action } => "Error: in action '"@ + action
                + "': runs is defined to empty value"@,
            LintViolationView::EmptyArgs { action } => "Error: in action '"@ + action
                + "': args is defined to empty value"@,
        }
    }
}

impl LintViolation {
    /// What the breach says.
    pub fn message(&self) -> (m: String)
        ensures
            m@ == self.deep_view().message(),
    {
        match self {
            LintViolation::ReservedEnvPrefix { action, key } => {
                let mut m = joined("Error: in action '", action.as_str());
                m.append("': in env var '");
                m.append(key.as_str());
                m.append("': var name starts with reserved prefix GITHUB_");
                m
            },
            LintViolation::TooManySecrets { count, limit } => {
                let mut m = joined("Error: you are using ", to_decimal(*count).as_str());
                m.append(" secrets, which exceeds GitHub limit of ");
                m.append(to_decimal(*limit).as_str());
                m
            },
            LintViolation::EmptyRuns { action } => {
                let mut m = joined("Error: in action '", action.as_str());
                m.append("': runs is defined to empty value");
                m
            },
            LintViolation::EmptyArgs { action } => {
                let mut m = joined("Error: in action '", action.as_str());
                m.append("': args is defined to empty value");
                m
            },
        }
    }
}

/// The reserved-prefix breaches of one environment, in the order of its entries.
pub open spec fn reserved_keys(action: Seq<char>, env: Entries) -> Seq<LintViolationView>
    decreases env.len(),
{
    if env.len() == 0 {
        Seq::empty()
    } else {
        let before = reserved_keys(action, env.drop_last());
        if reserved_prefix().is_prefix_of(env.last().0) {
            before.push(LintViolationView::ReservedEnvPrefix { action, key: env.last().0 })
        } else {
            before
        }
    }
}

/// The reserved-prefix breaches of all actions, in table order.
pub open spec fn env_violations(actions: Seq<ActionView>) -> Seq<LintViolationView>
    decreases actions.len(),
{
    if actions.len() == 0 {
        Seq::empty()
    } else {
        env_violations(actions.drop_last()) + reserved_keys(
            actions.last().name,
            actions.last().env,
        )
    }
}

/// Every secret name that the actions mention, with repetitions.
pub open spec fn all_secrets(actions: Seq<ActionView>) -> Seq<Seq<char>>
    decreases actions.len(),
{
    if actions.len() == 0 {
        Seq::empty()
    } else {
        all_secrets(actions.drop_last()) + actions.last().secrets
    }
}

/// How many distinct secret names the actions mention.
pub open spec fn secret_count(actions: Seq<ActionView>) -> nat {
    all_secrets(actions).to_set().len()
}

/// The breach of the secret budget, if there is one.
pub open spec fn secret_violations(actions: Seq<ActionView>) -> Seq<LintViolationView> {
    if secret_count(actions) > SECRET_COUNT_LIMIT {
        seq![
            LintViolationView::TooManySecrets {
                count: secret_count(actions),
                limit: SECRET_COUNT_LIMIT as nat,
            },
        ]
    } else {
        Seq::empty()
    }
}

/// The empty-list breaches of one action: `runs` first, then `args`.
pub open spec fn empty_lists(a: ActionView) -> Seq<LintViolationView> {
    let runs = if a.runs matches Some(list) && list.len() == 0 {
        seq![LintViolationView::EmptyRuns { action: a.name }]
    } else {
        Seq::empty()
    };
    let args = if a.args matches Some(list) && list.len() == 0 {
        seq![LintViolationView::EmptyArgs { action: a.name }]
    } else {
        Seq::empty()
    };
    runs + args
}

/// The empty-list breaches of all actions, in table order.
pub open spec fn empty_violations(actions: Seq<ActionView>) -> Seq<LintViolationView>
    decreases actions.len(),
{
    if actions.len() == 0 {
        Seq::empty()
    } else {
        empty_violations(actions.drop_last()) + empty_lists(actions.last())
    }
}

/// Everything that the rules find, rule by rule.
pub open spec fn violations(h: HirView) -> Seq<LintViolationView> {
    env_violations(h.actions) + secret_violations(h.actions) + empty_violations(h.actions)
}

/// `Error` if the rule found anything.
pub open spec fn outcome_of(found: Seq<LintViolationView>) -> LintOutcome {
    if found.len() > 0 {
        LintOutcome::Error
    } else {
        LintOutcome::Allow
    }
}

/// No variable of `env` has a name that starts with the reserved prefix.
pub open spec fn env_allowed(env: Entries) -> bool {
    forall|j: int| 0 <= j < env.len() ==> !reserved_prefix().is_prefix_of((#[trigger] env[j]).0)
}

/// The action declares neither `runs` nor `args` and leaves it empty.
pub open spec fn lists_allowed(a: ActionView) -> bool {
    &&& a.runs matches Some(list) ==> list.len() > 0
    &&& a.args matches Some(list) ==> list.len() > 0
}

/// An environment has no breach exactly when it has no reserved name.
pub proof fn lemma_reserved_keys(action: Seq<char>, env: Entries)
    ensures
        reserved_keys(action, env).len() == 0 <==> env_allowed(env),
    decreases env.len(),
{
    if env.len() > 0 {
        let d = env.drop_last();
        lemma_reserved_keys(action, d);
        if env_allowed(d) && !reserved_prefix().is_prefix_of(env.last().0) {
            assert forall|j: int| 0 <= j < env.len() implies !reserved_prefix().is_prefix_of(
                (#[trigger] env[j]).0,
            ) by {
                if j < d.len() {
                    assert(d[j] == env[j]);
                }
            }
        }
        if env_allowed(env) {
            assert forall|j: int| 0 <= j < d.len() implies !reserved_prefix().is_prefix_of(
                (#[trigger] d[j]).0,
            ) by {
                assert(d[j] == env[j]);
            }
            assert(!reserved_prefix().is_prefix_of(env[env.len() - 1].0));
        }
    }
}

/// The rules find nothing exactly when no environment has a reserved name,
/// the distinct secrets are within the limit, and no action declares an
/// empty `runs` or `args`.
pub proof fn lemma_lint_passes(h: HirView)
    ensures
        violations(h).len() == 0 <==> {
            &&& forall|i: int| 0 <= i < h.actions.len() ==> env_allowed((#[trigger] h.actions[i]).env)
            &&& secret_count(h.actions) <= SECRET_COUNT_LIMIT
            &&& forall|i: int| 0 <= i < h.actions.len() ==> lists_allowed(#[trigger] h.actions[i])
        },
{
    lemma_rules(h.actions);
}

/// The two rules that go action by action find nothing exactly when no
/// action breaks them.
proof fn lemma_rules(actions: Seq<ActionView>)
    ensures
        env_violations(actions).len() == 0 <==> forall|i: int|
            0 <= i < actions.len() ==> env_allowed((#[trigger] actions[i]).env),
        empty_violations(actions).len() == 0 <==> forall|i: int|
            0 <= i < actions.len() ==> lists_allowed(#[trigger] actions[i]),
    decreases actions.len(),
{
    if actions.len() > 0 {
        let d = actions.drop_last();
        let last = actions.last();
        lemma_rules(d);
        lemma_reserved_keys(last.name, last.env);
        assert(actions[actions.len() - 1] == last);
        assert forall|i: int| 0 <= i < d.len() implies d[i] == actions[i] by {}
        if (forall|i: int| 0 <= i < d.len() ==> env_allowed((#[trigger] d[i]).env)) && env_allowed(
            last.env,
        ) {
            assert forall|i: int| 0 <= i < actions.len() implies env_allowed(
                (#[trigger] actions[i]).env,
            ) by {
                if i < d.len() {
                    assert(d[i] == actions[i]);
                }
            }
        }
        if (forall|i: int| 0 <= i < d.len() ==> lists_allowed(#[trigger] d[i])) && lists_allowed(
            last,
        ) {
            assert forall|i: int| 0 <= i < actions.len() implies lists_allowed(
                #[trigger] actions[i],
            ) by {
                if i < d.len() {
                    assert(d[i] == actions[i]);
                }
            }
        }
        if forall|i: int| 0 <= i < actions.len() ==> env_allowed((#[trigger] actions[i]).env) {
            assert forall|i: int| 0 <= i < d.len() implies env_allowed((#[trigger] d[i]).env) by {
                assert(d[i] == actions[i]);
            }
        }
        if forall|i: int| 0 <= i < actions.len() ==> lists_allowed(#[trigger] actions[i]) {
            assert forall|i: int| 0 <= i < d.len() implies lists_allowed(#[trigger] d[i]) by {
                assert(d[i] == actions[i]);
            }
        }
    }
}

/// Reports every environment variable whose name starts with the reserved prefix.
pub fn lint_env_github(h: &Hir, report: &mut Vec<LintViolation>) -> (outcome: LintOutcome)
    ensures
        final(report).deep_view() == old(report).deep_view() + env_violations(h.deep_view().actions),
        outcome == outcome_of(env_violations(h.deep_view().actions)),
{
    let mut outcome = LintOutcome::Allow;
    let actions = h.actions();
    let ghost av = actions.deep_view();
    let ghost start = report.deep_view();
    let n = actions.len();
    let mut i: usize = 0;
    assert(av.take(0) =~= Seq::<ActionView>::empty());
    assert(start + Seq::<LintViolationView>::empty() =~= start);
    while i < n
        invariant
            i <= n,
            n == actions@.len(),
            av == actions.deep_view(),
            report.deep_view() == start + env_violations(av.take(i as int)),
            outcome == outcome_of(env_violations(av.take(i as int))),
        decreases n - i,
    {
        let act = &actions[i];
        let ghost done = env_violations(av.take(i as int));
        let ghost env = act.env.deep_view();
        let m = act.env.len();
        let mut j: usize = 0;
        assert(env.take(0) =~= Entries::empty());
        assert(done + Seq::<LintViolationView>::empty() =~= done);
        while j < m
            invariant
                j <= m,
                m == env.len(),
                env == act.env.deep_view(),
                report.deep_view() == start + (done + reserved_keys(act.name@, env.take(j as int))),
                outcome == outcome_of(done + reserved_keys(act.name@, env.take(j as int))),
            decreases m - j,
        {
            let var_name = act.env.key(j);
            proof {
                assert(env.take(j + 1).drop_last() =~= env.take(j as int));
                reveal_strlit("GITHUB_");
            }
            if starts_with(var_name.as_str(), "GITHUB_") {
                outcome.max_assign(LintOutcome::Error);
                let found = LintViolation::ReservedEnvPrefix {
                    action: act.name.clone(),
                    key: var_name.clone(),
                };
                let ghost before = report.deep_view();
                report.push(found);
                proof {
                    assert(report.deep_view() =~= before.push(found.deep_view()));
                    let sofar = reserved_keys(act.name@, env.take(j as int));
                    assert((start + (done + sofar)).push(found.deep_view()) =~= start + (done
                        + sofar.push(found.deep_view())));
                }
            }
            j += 1;
        }
        proof {
            assert(env.take(m as int) =~= env);
            assert(av.take(i + 1).drop_last() =~= av.take(i as int));
        }
        i += 1;
    }
    assert(av.take(n as int) =~= av);
    outcome
}

/// Reports the number of distinct secret names if it exceeds the limit.
pub fn lint_secrets_limit(h: &Hir, report: &mut Vec<LintViolation>) -> (outcome: LintOutcome)
    ensures
        final(report).deep_view() == old(report).deep_view() + secret_violations(
            h.deep_view().actions,
        ),
        outcome == outcome_of(secret_violations(h.deep_view().actions)),
{
    let mut secrets: StringHashMap<()> = StringHashMap::new();
    let actions = h.actions();
    let ghost av = actions.deep_view();
    let n = actions.len();
    let mut i: usize = 0;
    assert(av.take(0) =~= Seq::<ActionView>::empty());
    assert(secrets@.dom() =~= all_secrets(av.take(0)).to_set());
    while i < n
        invariant
            i <= n,
            n == actions@.len(),
            av == actions.deep_view(),
            secrets@.dom() == all_secrets(av.take(i as int)).to_set(),
        decreases n - i,
    {
        let act = &actions[i];
        let ghost done = all_secrets(av.take(i as int));
        let ghost names = act.secrets.deep_view();
        let m = act.secrets.len();
        let mut j: usize = 0;
        assert(done + names.take(0) =~= done);
        while j < m
            invariant
                j <= m,
                m == act.secrets@.len(),
                names == act.secrets.deep_view(),
                secrets@.dom() == (done + names.take(j as int)).to_set(),
            decreases m - j,
        {
            let ghost before = done + names.take(j as int);
            secrets.insert(act.secrets[j].clone(), ());
            proof {
                let after = done + names.take(j + 1);
                assert(after =~= before.push(names[j as int]));
                assert(secrets@.dom() =~= after.to_set()) by {
                    assert forall|s: Seq<char>| after.to_set().contains(s)
                        <==> before.to_set().insert(names[j as int]).contains(s) by {
                        if before.contains(s) {
                            let k = choose|k: int| 0 <= k < before.len() && before[k] == s;
                            assert(after[k] == s);
                        }
                        if s == names[j as int] {
                            assert(after[before.len() as int] == s);
                        }
                        if after.contains(s) {
                            let k = choose|k: int| 0 <= k < after.len() && after[k] == s;
                            if k < before.len() {
                                assert(before[k] == s);
                            }
                        }
                    }
                }
            }
            j += 1;
        }
        proof {
            assert(names.take(m as int) =~= names);
            assert(av.take(i + 1).drop_last() =~= av.take(i as int));
        }
        i += 1;
    }
    assert(av.take(n as int) =~= av);
    let count = secrets.len();
    if count > SECRET_COUNT_LIMIT {
        let found = LintViolation::TooManySecrets { count, limit: SECRET_COUNT_LIMIT };
        let ghost before = report.deep_view();
        report.push(found);
        assert(report.deep_view() =~= before + seq![found.deep_view()]);
        LintOutcome::Error
    } else {
        assert(report.deep_view() + Seq::<LintViolationView>::empty() =~= report.deep_view());
        LintOutcome::Allow
    }
}

/// Reports every `runs` and every `args` that is declared and left empty.
pub fn lint_empty_arr(h: &Hir, report: &mut Vec<LintViolation>) -> (outcome: LintOutcome)
    ensures
        final(report).deep_view() == old(report).deep_view() + empty_violations(
            h.deep_view().actions,
        ),
        outcome == outcome_of(empty_violations(h.deep_view().actions)),
{
    let mut outcome = LintOutcome::Allow;
    let actions = h.actions();
    let ghost av = actions.deep_view();
    let ghost start = report.deep_view();
    let n = actions.len();
    let mut i: usize = 0;
    assert(av.take(0) =~= Seq::<ActionView>::empty());
    assert(start + Seq::<LintViolationView>::empty() =~= start);
    while i < n
        invariant
            i <= n,
            n == actions@.len(),
            av == actions.deep_view(),
            report.deep_view() == start + empty_violations(av.take(i as int)),
            outcome == outcome_of(empty_violations(av.take(i as int))),
        decreases n - i,
    {
        let act = &actions[i];
        let ghost done = empty_violations(av.take(i as int));
        let bad_runs = match &act.runs {
            Some(list) => list.len() == 0,
            None => false,
        };
        let bad_args = match &act.args {
            Some(list) => list.len() == 0,
            None => false,
        };
        proof {
            assert(av.take(i + 1).drop_last() =~= av.take(i as int));
        }
        if bad_runs {
            let found = LintViolation::EmptyRuns { action: act.name.clone() };
            let ghost before = report.deep_view();
            report.push(found);
            assert(report.deep_view() =~= before.push(found.deep_view()));
        }
        if bad_args {
            let found = LintViolation::EmptyArgs { action: act.name.clone() };
            let ghost before = report.deep_view();
            report.push(found);
            assert(report.deep_view() =~= before.push(found.deep_view()));
        }
        if bad_runs || bad_args {
            outcome.max_assign(LintOutcome::Error);
        }
        assert(report.deep_view() =~= start + (done + empty_lists(av[i as int])));
        i += 1;
    }
    assert(av.take(n as int) =~= av);
    outcome
}

/// Runs every rule, whatever the earlier ones found, and passes only if
/// none reported anything. The breaches come in the order in which the
/// rules found them.
pub fn lint(h: &Hir) -> (r: Result<(), Vec<LintViolation>>)
    ensures
        match r {
            Ok(_) => violations(h.deep_view()).len() == 0,
            Err(found) => found.deep_view() == violations(h.deep_view()) && found@.len() > 0,
        },
{
    let mut report: Vec<LintViolation> = Vec::new();
    let mut outcome = LintOutcome::Allow;
    assert(report.deep_view() =~= Seq::<LintViolationView>::empty());
    let env = lint_env_github(h, &mut report);
    outcome.max_assign(env);
    let secrets = lint_secrets_limit(h, &mut report);
    outcome.max_assign(secrets);
    let empty = lint_empty_arr(h, &mut report);
    outcome.max_assign(empty);
    assert(report.deep_view() =~= violations(h.deep_view()));
    match outcome {
        LintOutcome::Error => Err(report),
        LintOutcome::Allow => Ok(()),
    }
}

} // verus!
