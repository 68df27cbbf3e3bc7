//! The resolved representation of a workflow file: one workflow and a table
//! of actions that refer to one another by identifier.

use vstd::prelude::*;
use crate::string_map::{distinct_keys, Entries, StringMap};
use crate::text::{clone_opt_strings, clone_strings};
use crate::hir::builder::{resolve, ResolveError, ResolveErrorView};
use crate::hir::lint::{violations, LintViolation, LintViolationView};
use crate::hir::parser::{Def, DefView};
use crate::view::result_view;

pub mod builder;
pub mod lint;
pub mod parser;

verus! {

/// Handle of an action: its index in the action table of one [`Hir`].
#[derive(Eq, PartialEq, Copy, Clone, Debug)]
pub struct ActionId(usize);

impl DeepView for ActionId {
    type V = usize;

    closed spec fn deep_view(&self) -> usize {
        self.0
    }
}

impl ActionId {
    pub fn new(p: usize) -> (id: Self)
        ensures
            id.deep_view() == p,
    {
        ActionId(p)
    }

    pub fn as_inner(&self) -> (p: usize)
        ensures
            p == self.deep_view(),
    {
        self.0
    }

    /// Identifiers with the same index are the same identifier.
    pub proof fn lemma_same_index(a: ActionId, b: ActionId)
        requires
            a.deep_view() == b.deep_view(),
        ensures
            a == b,
    {
    }
}

/// What sets a workflow off.
#[derive(Debug, Clone, Copy, PartialEq, Eq, Structural)]
pub enum Event {
    Push,
}

#[derive(Debug)]
pub struct Workflow {
    pub name: String,
    pub on: Event,
    pub depends: Vec<ActionId>,
}

pub struct WorkflowView {
    pub name: Seq<char>,
    pub on: Event,
    pub depends: Seq<usize>,
}

impl DeepView for Workflow {
    type V = WorkflowView;

    open spec fn deep_view(&self) -> WorkflowView {
        WorkflowView { name: self.name@, on: self.on, depends: self.depends.deep_view() }
    }
}

#[derive(Debug)]
pub struct Action {
    pub name: String,
    pub uses: String,
    pub runs: Option<Vec<String>>,
    pub args: Option<Vec<String>>,
    pub needs: Vec<ActionId>,
    pub env: StringMap,
    pub secrets: Vec<String>,
}

pub struct ActionView {
    pub name: Seq<char>,
    pub uses: Seq<char>,
    pub runs: Option<Seq<Seq<char>>>,
    pub args: Option<Seq<Seq<char>>>,
    pub needs: Seq<usize>,
    pub env: Entries,
    pub secrets: Seq<Seq<char>>,
}

impl Clone for Workflow {
    fn clone(&self) -> (w: Workflow)
        ensures
            w.deep_view() == self.deep_view(),
    {
        let depends = self.depends.clone();
        assert(depends@ =~= self.depends@);
        Workflow { name: self.name.clone(), on: self.on, depends }
    }
}

impl DeepView for Action {
    type V = ActionView;

    open spec fn deep_view(&self) -> ActionView {
        ActionView {
            name: self.name@,
            uses: self.uses@,
            runs: self.runs.deep_view(),
            args: self.args.deep_view(),
            needs: self.needs.deep_view(),
            env: self.env.deep_view(),
            secrets: self.secrets.deep_view(),
        }
    }
}

impl Clone for Action {
    fn clone(&self) -> (a: Action)
        ensures
            a.deep_view() == self.deep_view(),
    {
        let needs = self.needs.clone();
        assert(needs@ =~= self.needs@);
        Action {
            name: self.name.clone(),
            uses: self.uses.clone(),
            runs: clone_opt_strings(&self.runs),
            args: clone_opt_strings(&self.args),
            needs,
            env: self.env.clone(),
            secrets: clone_strings(&self.secrets),
        }
    }
}

pub struct HirView {
    pub workflow: WorkflowView,
    pub actions: Seq<ActionView>,
}

/// Every identifier in `ids` names one of `n` actions.
pub open spec fn ids_below(ids: Seq<usize>, n: nat) -> bool {
    forall|i: int| 0 <= i < ids.len() ==> #[trigger] ids[i] < n
}

impl HirView {
    /// What holds of every resolved representation: each identifier names an
    /// action of the table, no two actions share a name, and no environment
    /// names a variable twice.
    pub open spec fn valid(self) -> bool {
        &&& ids_below(self.workflow.depends, self.actions.len())
        &&& forall|i: int|
            0 <= i < self.actions.len() ==> ids_below(
                (#[trigger] self.actions[i]).needs,
                self.actions.len(),
            )
        &&& forall|i: int|
            0 <= i < self.actions.len() ==> distinct_keys((#[trigger] self.actions[i]).env)
        &&& forall|i: int, j: int|
            0 <= i < j < self.actions.len() ==> (#[trigger] self.actions[i]).name != (
            #[trigger] self.actions[j]).name
    }
}

/// A workflow and its actions, with every name resolved.
#[derive(Debug)]
pub struct Hir {
    workflow: Workflow,
    actions: Vec<Action>,
}

impl DeepView for Hir {
    type V = HirView;

    closed spec fn deep_view(&self) -> HirView {
        HirView { workflow: self.workflow.deep_view(), actions: self.actions.deep_view() }
    }
}

impl Clone for Hir {
    fn clone(&self) -> (h: Hir)
        ensures
            h.deep_view() == self.deep_view(),
    {
        proof {
            use_type_invariant(self);
        }
        let n = self.actions.len();
        let mut actions: Vec<Action> = Vec::new();
        let mut i: usize = 0;
        while i < n
            invariant
                i <= n,
                n == self.actions@.len(),
                actions@.len() == i,
                forall|j: int|
                    0 <= j < i ==> (#[trigger] actions@[j]).deep_view()
                        == self.actions@[j].deep_view(),
            decreases n - i,
        {
            actions.push(self.actions[i].clone());
            i += 1;
        }
        assert(actions.deep_view() =~= self.actions.deep_view());
        Hir { workflow: self.workflow.clone(), actions }
    }
}

impl Hir {
    #[verifier::type_invariant]
    spec fn well_formed(&self) -> bool {
        self.deep_view().valid()
    }

    /// Puts a workflow and an action table together.
    pub(crate) fn assemble(workflow: Workflow, actions: Vec<Action>) -> (h: Hir)
        requires
            (HirView { workflow: workflow.deep_view(), actions: actions.deep_view() }).valid(),
        ensures
            h.deep_view() == (HirView {
                workflow: workflow.deep_view(),
                actions: actions.deep_view(),
            }),
    {
        Hir { workflow, actions }
    }

    /// The action that `id` names.
    pub fn action(&self, id: ActionId) -> (a: &Action)
        requires
            id.deep_view() < self.deep_view().actions.len(),
        ensures
            a.deep_view() == self.deep_view().actions[id.deep_view() as int],
    {
        &self.actions[id.0]
    }

    pub fn workflow(&self) -> (w: &Workflow)
        ensures
            w.deep_view() == self.deep_view().workflow,
    {
        &self.workflow
    }

    /// The action table, in identifier order.
    pub fn actions(&self) -> (a: &Vec<Action>)
        ensures
            a.deep_view() == self.deep_view().actions,
            self.deep_view().valid(),
    {
        proof {
            use_type_invariant(self);
        }
        &self.actions
    }

    pub fn actions_cnt(&self) -> (n: usize)
        ensures
            n == self.deep_view().actions.len(),
            self.deep_view().valid(),
    {
        proof {
            use_type_invariant(self);
        }
        self.actions.len()
    }
}

/// Why a list of definitions was turned down.
#[derive(Debug, Clone, PartialEq, Eq)]
pub enum BuildError {
    /// The names could not be resolved.
    Resolve(ResolveError),
    /// The names were resolved and the rules found these breaches, all of
    /// them, in the order in which the rules ran.
    Lint(Vec<LintViolation>),
}

pub enum BuildErrorView {
    Resolve(ResolveErrorView),
    Lint(Seq<LintViolationView>),
}

impl DeepView for BuildError {
    type V = BuildErrorView;

    open spec fn deep_view(&self) -> BuildErrorView {
        match self {
            BuildError::Resolve(e) => BuildErrorView::Resolve(e.deep_view()),
            BuildError::Lint(found) => BuildErrorView::Lint(found.deep_view()),
        }
    }
}

/// The validated representation of `defs`: the resolved one, if no rule
/// finds a breach in it.
pub open spec fn validated(defs: Seq<DefView>) -> Result<HirView, BuildErrorView> {
    match resolve(defs) {
        Err(e) => Err(BuildErrorView::Resolve(e)),
        Ok(h) => if violations(h).len() == 0 {
            Ok(h)
        } else {
            Err(BuildErrorView::Lint(violations(h)))
        },
    }
}

/// Resolves `defs` and holds the result to the rules.
pub fn build(defs: Vec<Def>) -> (r: Result<Hir, BuildError>)
    ensures
        result_view(r) == validated(defs.deep_view()),
{
    match builder::build(defs) {
        Err(e) => Err(BuildError::Resolve(e)),
        Ok(h) => match lint::lint(&h) {
            Ok(_) => Ok(h),
            Err(found) => Err(BuildError::Lint(found)),
        },
    }
}

} // verus!
