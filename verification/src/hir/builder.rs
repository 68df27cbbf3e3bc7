//! Resolution of names: from definitions in source order to a [`Hir`].
//!
//! Resolution takes two passes. The first hands every action the next free
//! identifier, so that a reference may name an action that is declared later.
//! The second turns every reference into the identifier of the action it names.

use vstd::prelude::*;
use vstd::hash_map::StringHashMap;
use crate::hir::parser::{
    ActionDef, ActionDefView, Def, DefKind, DefView, WorkflowDef, WorkflowDefView,
};
use crate::hir::{Action, ActionId, ActionView, Event, Hir, HirView, Workflow, WorkflowView};
use crate::hir::ids_below;
use crate::string_map::distinct_keys;
use crate::view::result_view;
use crate::text::{
    clone_opt_strings, clone_strings, first_absent, joined, lemma_first_absent_persists, str_eq,
};
use vstd::string::*;

verus! {

/// Why a list of definitions has no resolved representation.
#[derive(Debug, Clone, PartialEq, Eq)]
pub enum ResolveError {
    /// Two actions share `name`.
    DuplicateAction { name: String },
    /// A second workflow was met.
    MultipleWorkflows,
    /// The workflow's trigger is not a known event.
    UnknownTrigger { trigger: String },
    /// The definition `referrer`, of kind `kind`, refers to an action `name`
    /// that is declared nowhere.
    UnknownAction { kind: DefKind, referrer: String, name: String },
    /// There is no workflow at all.
    MissingWorkflow,
}

pub enum ResolveErrorView {
    DuplicateAction { name: Seq<char> },
    MultipleWorkflows,
    UnknownTrigger { trigger: Seq<char> },
    UnknownAction { kind: DefKind, referrer: Seq<char>, name: Seq<char> },
    MissingWorkflow,
}

impl DeepView for ResolveError {
    type V = ResolveErrorView;

    open spec fn deep_view(&self) -> ResolveErrorView {
        match self {
            ResolveError::DuplicateAction { name } => ResolveErrorView::DuplicateAction {
                name: name@,
            },
            ResolveError::MultipleWorkflows => ResolveErrorView::MultipleWorkflows,
            ResolveError::UnknownTrigger { trigger } => ResolveErrorView::UnknownTrigger {
                trigger: trigger@,
            },
            ResolveError::UnknownAction { kind, referrer, name } => ResolveErrorView::UnknownAction {
                kind: *kind,
                referrer: referrer@,
                name: name@,
            },
            ResolveError::MissingWorkflow => ResolveErrorView::MissingWorkflow,
        }
    }
}

impl ResolveErrorView {
    /// What the error says.
    pub open spec fn message(self) -> Seq<char> {
        match self {
            ResolveErrorView::DuplicateAction { name } => "action with name "@ + name
                + " already defined"@,
            ResolveErrorView::MultipleWorkflows => "multiple workflows are not supported"@,
            ResolveErrorView::UnknownTrigger { trigger } => "unknown workflow trigger: "@ + trigger,
            ResolveErrorView::UnknownAction { kind, referrer, name } => match kind {
                DefKind::Workflow => "workflow refers to unknown action "@ + name,
                DefKind::Action => "action "@ + referrer + " refers to unknown action "@ + name,
            },
            ResolveErrorView::MissingWorkflow => "no workflows found"@,
        }
    }
}

impl ResolveError {
    /// What the error says.
    pub fn message(&self) -> (m: String)
        ensures
            m@ == self.deep_view().message(),
    {
        match self {
            ResolveError::DuplicateAction { name } => {
                let mut m = joined("action with name ", name.as_str());
                m.append(" already defined");
                m
            },
            ResolveError::MultipleWorkflows => "multiple workflows are not supported".to_owned(),
            ResolveError::UnknownTrigger { trigger } => joined(
                "unknown workflow trigger: ",
                trigger.as_str(),
            ),
            ResolveError::UnknownAction { kind, referrer, name } => match kind {
                DefKind::Workflow => joined("workflow refers to unknown action ", name.as_str()),
                DefKind::Action => {
                    let mut m = joined("action ", referrer.as_str());
                    m.append(" refers to unknown action ");
                    m.append(name.as_str());
                    m
                },
            },
            ResolveError::MissingWorkflow => "no workflows found".to_owned(),
        }
    }
}

/// The names of the actions among `defs`, in source order.
pub open spec fn action_names(defs: Seq<DefView>) -> Seq<Seq<char>>
    decreases defs.len(),
{
    if defs.len() == 0 {
        Seq::empty()
    } else {
        let before = action_names(defs.drop_last());
        match defs.last() {
            DefView::Action(a) => before.push(a.name),
            DefView::Workflow(_) => before,
        }
    }
}

/// Index of the first name that an earlier name already bears.
pub open spec fn first_repeat(names: Seq<Seq<char>>) -> Option<int>
    decreases names.len(),
{
    if names.len() == 0 {
        None
    } else {
        match first_repeat(names.drop_last()) {
            Some(j) => Some(j),
            None => if names.drop_last().contains(names.last()) {
                Some(names.len() - 1)
            } else {
                None
            },
        }
    }
}

/// The identifiers of `refs`: each one's position among `names`.
pub open spec fn ids_of(names: Seq<Seq<char>>, refs: Seq<Seq<char>>) -> Seq<usize> {
    Seq::new(refs.len(), |i: int| names.index_of(refs[i]) as usize)
}

/// The event that a trigger string names.
pub open spec fn event_of(trigger: Seq<char>) -> Option<Event> {
    if trigger == "push"@ {
        Some(Event::Push)
    } else {
        None
    }
}

/// What the second pass has gathered so far.
pub struct Resolved {
    pub workflow: Option<WorkflowView>,
    pub actions: Seq<ActionView>,
}

/// A workflow definition with its targets resolved against `names`.
pub open spec fn resolve_workflow(names: Seq<Seq<char>>, w: WorkflowDefView) -> Result<
    WorkflowView,
    ResolveErrorView,
> {
    match event_of(w.on) {
        None => Err(ResolveErrorView::UnknownTrigger { trigger: w.on }),
        Some(on) => match first_absent(names, w.resolves) {
            Some(j) => Err(
                ResolveErrorView::UnknownAction {
                    kind: DefKind::Workflow,
                    referrer: w.name,
                    name: w.resolves[j],
                },
            ),
            None => Ok(WorkflowView { name: w.name, on, depends: ids_of(names, w.resolves) }),
        },
    }
}

/// An action definition with its dependencies resolved against `names`.
pub open spec fn resolve_action(names: Seq<Seq<char>>, a: ActionDefView) -> Result<
    ActionView,
    ResolveErrorView,
> {
    match first_absent(names, a.needs) {
        Some(j) => Err(
            ResolveErrorView::UnknownAction {
                kind: DefKind::Action,
                referrer: a.name,
                name: a.needs[j],
            },
        ),
        None => Ok(
            ActionView {
                name: a.name,
                uses: a.uses,
                runs: a.runs,
                args: a.args,
                needs: ids_of(names, a.needs),
                env: a.env,
                secrets: a.secrets,
            },
        ),
    }
}

/// The second pass over `defs`: the definitions are taken in source order and
/// the first one that cannot be resolved decides the error.
pub open spec fn resolve_defs(names: Seq<Seq<char>>, defs: Seq<DefView>) -> Result<
    Resolved,
    ResolveErrorView,
>
    decreases defs.len(),
{
    if defs.len() == 0 {
        Ok(Resolved { workflow: None, actions: Seq::empty() })
    } else {
        match resolve_defs(names, defs.drop_last()) {
            Err(e) => Err(e),
            Ok(sofar) => match defs.last() {
                DefView::Workflow(w) => if sofar.workflow.is_some() {
                    Err(ResolveErrorView::MultipleWorkflows)
                } else {
                    match resolve_workflow(names, w) {
                        Err(e) => Err(e),
                        Ok(wf) => Ok(Resolved { workflow: Some(wf), actions: sofar.actions }),
                    }
                },
                DefView::Action(a) => match resolve_action(names, a) {
                    Err(e) => Err(e),
                    Ok(act) => Ok(
                        Resolved { workflow: sofar.workflow, actions: sofar.actions.push(act) },
                    ),
                },
            },
        }
    }
}

/// The resolved representation of `defs`, or the first reason why there is none.
pub open spec fn resolve(defs: Seq<DefView>) -> Result<HirView, ResolveErrorView> {
    let names = action_names(defs);
    match first_repeat(names) {
        Some(j) => Err(ResolveErrorView::DuplicateAction { name: names[j] }),
        None => match resolve_defs(names, defs) {
            Err(e) => Err(e),
            Ok(all) => match all.workflow {
                None => Err(ResolveErrorView::MissingWorkflow),
                Some(workflow) => Ok(HirView { workflow, actions: all.actions }),
            },
        },
    }
}

/// The names that a prefix of the definitions declares are a prefix of all names.
pub proof fn lemma_action_names_prefix(defs: Seq<DefView>, k: int)
    requires
        0 <= k <= defs.len(),
    ensures
        action_names(defs.take(k)).len() <= action_names(defs).len(),
        action_names(defs.take(k)) == action_names(defs).take(
            action_names(defs.take(k)).len() as int,
        ),
    decreases defs.len(),
{
    if k == defs.len() {
        assert(defs.take(k) =~= defs);
        assert(action_names(defs).take(action_names(defs).len() as int) =~= action_names(defs));
    } else {
        assert(defs.drop_last().take(k) =~= defs.take(k));
        lemma_action_names_prefix(defs.drop_last(), k);
        let before = action_names(defs.drop_last());
        let m = action_names(defs.take(k)).len() as int;
        assert(action_names(defs).take(m) =~= before.take(m));
    }
}

/// One more definition adds its name if it is an action, and nothing else.
pub proof fn lemma_action_names_step(defs: Seq<DefView>, k: int)
    requires
        0 <= k < defs.len(),
    ensures
        action_names(defs.take(k + 1)) == match defs[k] {
            DefView::Action(a) => action_names(defs.take(k)).push(a.name),
            DefView::Workflow(_) => action_names(defs.take(k)),
        },
{
    assert(defs.take(k + 1).drop_last() =~= defs.take(k));
}

/// A repeat that shows in a prefix of the names is the first repeat of them all.
pub proof fn lemma_first_repeat_persists(names: Seq<Seq<char>>, k: int)
    requires
        0 <= k <= names.len(),
        first_repeat(names.take(k)).is_some(),
    ensures
        first_repeat(names) == first_repeat(names.take(k)),
    decreases names.len(),
{
    if k == names.len() {
        assert(names.take(k) =~= names);
    } else {
        assert(names.drop_last().take(k) =~= names.take(k));
        lemma_first_repeat_persists(names.drop_last(), k);
    }
}

/// There is no repeat exactly when the names are distinct, and a repeat that
/// is reported lies within the names and bears an earlier name.
pub proof fn lemma_first_repeat(names: Seq<Seq<char>>)
    ensures
        first_repeat(names).is_none() <==> names.no_duplicates(),
        first_repeat(names) matches Some(j) ==> 0 < j < names.len() && names.take(j).contains(
            names[j],
        ) && names.take(j).no_duplicates(),
    decreases names.len(),
{
    if names.len() > 0 {
        let d = names.drop_last();
        let last = names.len() - 1;
        lemma_first_repeat(d);
        match first_repeat(d) {
            Some(j) => {
                assert(d.take(j) =~= names.take(j));
                let i = choose|i: int| 0 <= i < d.take(j).len() && d.take(j)[i] == d[j];
                assert(names[i] == names[j]);
            },
            None => {
                assert(names.take(last) =~= d);
                if d.contains(names.last()) {
                    let i = choose|i: int| 0 <= i < d.len() && d[i] == names.last();
                    assert(names[i] == names[last]);
                } else {
                    assert forall|i: int, j: int|
                        0 <= i < names.len() && 0 <= j < names.len() && i != j implies names[i]
                        != names[j] by {
                        if i < last && j < last {
                            assert(d[i] != d[j]);
                        } else if i < last {
                            assert(d[i] == names[i]);
                        } else {
                            assert(d[j] == names[j]);
                        }
                    }
                }
            },
        }
    }
}

/// An error that the second pass meets in a prefix is its result on the whole.
pub proof fn lemma_resolve_defs_persists(names: Seq<Seq<char>>, defs: Seq<DefView>, k: int)
    requires
        0 <= k <= defs.len(),
        resolve_defs(names, defs.take(k)).is_err(),
    ensures
        resolve_defs(names, defs) == resolve_defs(names, defs.take(k)),
    decreases defs.len(),
{
    if k == defs.len() {
        assert(defs.take(k) =~= defs);
    } else {
        assert(defs.drop_last().take(k) =~= defs.take(k));
        lemma_resolve_defs_persists(names, defs.drop_last(), k);
    }
}

/// How many of `defs` are workflows.
pub open spec fn workflow_count(defs: Seq<DefView>) -> nat
    decreases defs.len(),
{
    if defs.len() == 0 {
        0
    } else {
        workflow_count(defs.drop_last()) + if defs.last() is Workflow {
            1nat
        } else {
            0nat
        }
    }
}

/// Every reference of `def` is one of `names`.
pub open spec fn references_known(names: Seq<Seq<char>>, def: DefView) -> bool {
    let refs = match def {
        DefView::Workflow(w) => w.resolves,
        DefView::Action(a) => a.needs,
    };
    forall|i: int| 0 <= i < refs.len() ==> names.contains(#[trigger] refs[i])
}

/// References that are all known resolve to identifiers of declared actions.
pub proof fn lemma_ids_of_below(names: Seq<Seq<char>>, refs: Seq<Seq<char>>)
    requires
        first_absent(names, refs).is_none(),
    ensures
        ids_below(ids_of(names, refs), names.len()),
{
    crate::text::lemma_first_absent(names, refs);
    assert forall|i: int| 0 <= i < refs.len() implies #[trigger] ids_of(names, refs)[i]
        < names.len() by {
        assert(names.contains(refs[i]));
        let k = names.index_of(refs[i]);
        assert(0 <= k < names.len());
    }
}

/// What the second pass has gathered when it meets no error: one action
/// for each action definition, under its name and with identifiers of
/// declared actions only, and the workflow if there is exactly one; it
/// meets an error if there are more, or if a reference is unknown.
pub proof fn lemma_resolve_defs(names: Seq<Seq<char>>, defs: Seq<DefView>)
    ensures
        match resolve_defs(names, defs) {
            Ok(all) => {
                &&& all.actions.len() == action_names(defs).len()
                &&& forall|i: int|
                    0 <= i < all.actions.len() ==> (#[trigger] all.actions[i]).name
                        == action_names(defs)[i]
                &&& forall|i: int|
                    0 <= i < all.actions.len() ==> ids_below(
                        (#[trigger] all.actions[i]).needs,
                        names.len(),
                    )
                &&& all.workflow matches Some(w) ==> ids_below(w.depends, names.len())
                &&& workflow_count(defs) == if all.workflow.is_some() {
                    1nat
                } else {
                    0nat
                }
                &&& forall|i: int| 0 <= i < defs.len() ==> references_known(names, #[trigger] defs[i])
            },
            Err(e) => {
                &&& e is MultipleWorkflows ==> workflow_count(defs) >= 2
                &&& !(e is MissingWorkflow)
                &&& !(e is DuplicateAction)
            },
        },
    decreases defs.len(),
{
    if defs.len() > 0 {
        let d = defs.drop_last();
        lemma_resolve_defs(names, d);
        match resolve_defs(names, d) {
            Err(_) => {},
            Ok(sofar) => {
                match defs.last() {
                    DefView::Workflow(w) => {
                        if sofar.workflow.is_none() && event_of(w.on).is_some() && first_absent(
                            names,
                            w.resolves,
                        ).is_none() {
                            lemma_ids_of_below(names, w.resolves);
                            crate::text::lemma_first_absent(names, w.resolves);
                            assert forall|i: int| 0 <= i < defs.len() implies references_known(
                                names,
                                #[trigger] defs[i],
                            ) by {
                                if i < d.len() {
                                    assert(defs[i] == d[i]);
                                }
                            }
                        }
                    },
                    DefView::Action(a) => {
                        if first_absent(names, a.needs).is_none() {
                            lemma_ids_of_below(names, a.needs);
                            crate::text::lemma_first_absent(names, a.needs);
                            let all = resolve_defs(names, defs)->Ok_0;
                            assert forall|i: int| 0 <= i < all.actions.len() implies (
                            #[trigger] all.actions[i]).name == action_names(defs)[i] && ids_below(
                                all.actions[i].needs,
                                names.len(),
                            ) by {
                                if i < sofar.actions.len() {
                                    assert(all.actions[i] == sofar.actions[i]);
                                }
                            }
                            assert forall|i: int| 0 <= i < defs.len() implies references_known(
                                names,
                                #[trigger] defs[i],
                            ) by {
                                if i < d.len() {
                                    assert(defs[i] == d[i]);
                                }
                            }
                        }
                    },
                }
            },
        }
    }
}

/// Definitions that resolve hold exactly one workflow and no two actions of
/// one name; every reference in them names a declared action; and the
/// result has one action for each action definition, in source order, under
/// its name, with every identifier that of an action of the table.
pub proof fn lemma_resolved(defs: Seq<DefView>)
    ensures
        resolve(defs) matches Ok(h) ==> {
            &&& workflow_count(defs) == 1
            &&& action_names(defs).no_duplicates()
            &&& forall|i: int|
                0 <= i < defs.len() ==> references_known(action_names(defs), #[trigger] defs[i])
            &&& h.actions.len() == action_names(defs).len()
            &&& forall|i: int|
                0 <= i < h.actions.len() ==> (#[trigger] h.actions[i]).name == action_names(
                    defs,
                )[i]
            &&& ids_below(h.workflow.depends, h.actions.len())
            &&& forall|i: int|
                0 <= i < h.actions.len() ==> ids_below(
                    (#[trigger] h.actions[i]).needs,
                    h.actions.len(),
                )
        },
{
    let names = action_names(defs);
    lemma_first_repeat(names);
    lemma_resolve_defs(names, defs);
}

/// When resolution fails for want of a workflow there is none; when it
/// fails for a second workflow there are at least two; and definitions
/// among which two actions share a name fail for that, whatever else is
/// wrong with them.
pub proof fn lemma_resolve_errors(defs: Seq<DefView>)
    ensures
        resolve(defs) matches Err(e) ==> {
            &&& e is MissingWorkflow ==> workflow_count(defs) == 0
            &&& e is MultipleWorkflows ==> workflow_count(defs) >= 2
            &&& e is DuplicateAction <==> !action_names(defs).no_duplicates()
        },
        !action_names(defs).no_duplicates() ==> resolve(defs) is Err,
        workflow_count(defs) != 1 ==> resolve(defs) is Err,
{
    let names = action_names(defs);
    lemma_first_repeat(names);
    lemma_resolve_defs(names, defs);
}

/// Hands out identifiers: every new name gets the next free one.
pub struct ActionIdMapper {
    map: StringHashMap<ActionId>,
    names: Ghost<Seq<Seq<char>>>,
}

impl ActionIdMapper {
    /// The names in the order of their identifiers.
    pub closed spec fn names(&self) -> Seq<Seq<char>> {
        self.names@
    }

    /// The names are distinct, and the table maps each to its position.
    pub closed spec fn wf(&self) -> bool {
        &&& self.names@.no_duplicates()
        &&& self.map@.dom().finite()
        &&& self.map@.len() == self.names@.len()
        &&& forall|k: Seq<char>| self.map@.dom().contains(k) <==> self.names@.contains(k)
        &&& forall|i: int|
            0 <= i < self.names@.len() ==> (#[trigger] self.map@[self.names@[i]]).deep_view() == i
    }

    pub fn new() -> (m: ActionIdMapper)
        ensures
            m.wf(),
            m.names() == Seq::<Seq<char>>::empty(),
    {
        ActionIdMapper { map: StringHashMap::new(), names: Ghost(Seq::empty()) }
    }

    /// The identifier of the action named `s`.
    pub fn get(&self, s: &str) -> (r: Option<ActionId>)
        requires
            self.wf(),
        ensures
            match r {
                Some(id) => id.deep_view() < self.names().len() && self.names()[id.deep_view() as int]
                    == s@,
                None => !self.names().contains(s@),
            },
    {
        match self.map.get(s) {
            Some(id) => {
                proof {
                    assert(self.map@.dom().contains(s@));
                    assert(self.names@.contains(s@));
                    let i = choose|i: int| 0 <= i < self.names@.len() && self.names@[i] == s@;
                    assert(self.map@[self.names@[i]].deep_view() == i);
                }
                Some(*id)
            },
            None => None,
        }
    }

    /// Gives `s` the next free identifier unless it has one. Returns whether
    /// the name is new, and its identifier.
    pub fn feed(&mut self, s: &str) -> (r: (bool, ActionId))
        requires
            old(self).wf(),
        ensures
            final(self).wf(),
            r.0 == !old(self).names().contains(s@),
            r.0 ==> final(self).names() == old(self).names().push(s@),
            !r.0 ==> final(self).names() == old(self).names(),
            r.1.deep_view() < final(self).names().len(),
            final(self).names()[r.1.deep_view() as int] == s@,
    {
        let new_id = ActionId::new(self.map.len());
        match self.get(s) {
            Some(id) => (false, id),
            None => {
                let ghost before = self.names@;
                let ghost old_map = self.map@;
                self.map.insert(s.to_owned(), new_id);
                self.names = Ghost(before.push(s@));
                proof {
                    let after = before.push(s@);
                    assert(self.map@ == old_map.insert(s@, new_id));
                    assert forall|k: Seq<char>| self.map@.dom().contains(k) <==> after.contains(
                        k,
                    ) by {
                        if k == s@ {
                            assert(after[before.len() as int] == k);
                        } else if before.contains(k) {
                            let i = choose|i: int| 0 <= i < before.len() && before[i] == k;
                            assert(after[i] == k);
                        } else if after.contains(k) {
                            let i = choose|i: int| 0 <= i < after.len() && after[i] == k;
                            assert(before[i] == k);
                        }
                    }
                    assert forall|i: int| 0 <= i < after.len() implies (
                    #[trigger] self.map@[after[i]]).deep_view() == i by {
                        if i < before.len() {
                            assert(before[i] == after[i]);
                            assert(before.contains(before[i]));
                            assert(old_map[before[i]].deep_view() == i);
                        }
                    }
                    assert forall|i: int, j: int|
                        0 <= i < after.len() && 0 <= j < after.len() && i != j implies after[i]
                        != after[j] by {
                        if i < before.len() {
                            assert(before.contains(before[i]));
                        }
                        if j < before.len() {
                            assert(before.contains(before[j]));
                        }
                    }
                }
                (true, new_id)
            },
        }
    }
}

/// The identifiers of `refs`, or the position of the first that names no action.
fn resolve_names(mapper: &ActionIdMapper, refs: &Vec<String>) -> (r: Result<Vec<ActionId>, usize>)
    requires
        mapper.wf(),
        mapper.names().no_duplicates(),
    ensures
        match r {
            Ok(ids) => first_absent(mapper.names(), refs.deep_view()).is_none() && ids.deep_view()
                == ids_of(mapper.names(), refs.deep_view()) && ids_below(
                ids.deep_view(),
                mapper.names().len(),
            ),
            Err(j) => j < refs@.len() && first_absent(mapper.names(), refs.deep_view()) == Some(
                j as int,
            ),
        },
{
    let ghost names = mapper.names();
    let ghost rv = refs.deep_view();
    let n = refs.len();
    let mut ids: Vec<ActionId> = Vec::new();
    let mut k: usize = 0;
    assert(rv.take(0) =~= Seq::<Seq<char>>::empty());
    while k < n
        invariant
            k <= n,
            n == refs@.len(),
            rv == refs.deep_view(),
            names == mapper.names(),
            mapper.wf(),
            names.no_duplicates(),
            first_absent(names, rv.take(k as int)).is_none(),
            ids@.len() == k,
            forall|j: int|
                0 <= j < k ==> (#[trigger] ids@[j]).deep_view() == names.index_of(rv[j])
                    && ids@[j].deep_view() < names.len(),
        decreases n - k,
    {
        assert(rv.take(k + 1).drop_last() =~= rv.take(k as int));
        assert(rv.take(k + 1).last() == rv[k as int]);
        match mapper.get(refs[k].as_str()) {
            Some(id) => {
                assert(names.contains(rv[k as int]));
                ids.push(id);
            },
            None => {
                proof {
                    lemma_first_absent_persists(names, rv, k + 1);
                }
                return Err(k);
            },
        }
        k += 1;
    }
    proof {
        assert(rv.take(n as int) =~= rv);
        assert(ids.deep_view() =~= ids_of(names, rv));
    }
    Ok(ids)
}

/// Resolves `defs`, taken in source order, into a [`Hir`].
///
/// Fails on the first of: an action name that occurs twice; in source order,
/// a second workflow, a trigger other than `push`, or a reference to an
/// action that is declared nowhere; the lack of any workflow.
pub fn generate_hir(defs: &[Def]) -> (r: Result<Hir, ResolveError>)
    ensures
        result_view(r) == resolve(defs.deep_view()),
{
    let ghost dv = defs.deep_view();
    let n = defs.len();
    let mut mapper = ActionIdMapper::new();
    let mut i: usize = 0;
    assert(dv.take(0) =~= Seq::<DefView>::empty());
    while i < n
        invariant
            i <= n,
            n == defs@.len(),
            dv == defs.deep_view(),
            mapper.wf(),
            mapper.names() == action_names(dv.take(i as int)),
            first_repeat(mapper.names()).is_none(),
        decreases n - i,
    {
        proof {
            lemma_action_names_step(dv, i as int);
        }
        if let Def::Action(def) = &defs[i] {
            let ghost before = mapper.names();
            let fed = mapper.feed(def.name.as_str());
            let ghost after = before.push(def.name@);
            assert(after.drop_last() =~= before);
            if !fed.0 {
                proof {
                    assert(action_names(dv.take(i + 1)) == after);
                    assert(first_repeat(after) == Some(before.len() as int));
                    lemma_action_names_prefix(dv, i + 1);
                    lemma_first_repeat_persists(action_names(dv), after.len() as int);
                }
                return Err(ResolveError::DuplicateAction { name: def.name.clone() });
            }
        }
        i += 1;
    }
    let ghost names = mapper.names();
    proof {
        assert(dv.take(n as int) =~= dv);
        lemma_first_repeat(names);
    }
    let mut actions: Vec<Action> = Vec::new();
    let mut workflow: Option<Workflow> = None;
    let mut i: usize = 0;
    assert(actions.deep_view() =~= Seq::<ActionView>::empty());
    while i < n
        invariant
            i <= n,
            n == defs@.len(),
            dv == defs.deep_view(),
            mapper.wf(),
            names == mapper.names(),
            names == action_names(dv),
            names.no_duplicates(),
            first_repeat(names).is_none(),
            resolve_defs(names, dv.take(i as int)) == Ok::<Resolved, ResolveErrorView>(
                Resolved { workflow: workflow.deep_view(), actions: actions.deep_view() },
            ),
            actions@.len() == action_names(dv.take(i as int)).len(),
            actions@.len() <= names.len(),
            forall|j: int|
                0 <= j < actions@.len() ==> (#[trigger] actions.deep_view()[j]).name == names[j],
            forall|j: int|
                0 <= j < actions@.len() ==> ids_below(
                    (#[trigger] actions.deep_view()[j]).needs,
                    names.len(),
                ),
            forall|j: int|
                0 <= j < actions@.len() ==> distinct_keys((#[trigger] actions.deep_view()[j]).env),
            workflow matches Some(w) ==> ids_below(w.deep_view().depends, names.len()),
        decreases n - i,
    {
        proof {
            lemma_action_names_step(dv, i as int);
            lemma_action_names_prefix(dv, i as int);
            lemma_action_names_prefix(dv, i + 1);
            assert(dv.take(i + 1).drop_last() =~= dv.take(i as int));
            assert(dv.take(i + 1).last() == dv[i as int]);
        }
        match &defs[i] {
            Def::Workflow(def) => {
                if workflow.is_some() {
                    proof {
                        lemma_resolve_defs_persists(names, dv, i + 1);
                    }
                    return Err(ResolveError::MultipleWorkflows);
                }
                if !str_eq(def.on.as_str(), "push") {
                    proof {
                        lemma_resolve_defs_persists(names, dv, i + 1);
                    }
                    return Err(ResolveError::UnknownTrigger { trigger: def.on.clone() });
                }
                match resolve_names(&mapper, &def.resolves) {
                    Err(j) => {
                        proof {
                            lemma_resolve_defs_persists(names, dv, i + 1);
                        }
                        return Err(
                            ResolveError::UnknownAction {
                                kind: DefKind::Workflow,
                                referrer: def.name.clone(),
                                name: def.resolves[j].clone(),
                            },
                        );
                    },
                    Ok(depends) => {
                        workflow = Some(Workflow { name: def.name.clone(), on: Event::Push, depends });
                    },
                }
            },
            Def::Action(def) => {
                match resolve_names(&mapper, &def.needs) {
                    Err(j) => {
                        proof {
                            lemma_resolve_defs_persists(names, dv, i + 1);
                        }
                        return Err(
                            ResolveError::UnknownAction {
                                kind: DefKind::Action,
                                referrer: def.name.clone(),
                                name: def.needs[j].clone(),
                            },
                        );
                    },
                    Ok(depends) => {
                        let env = def.env.clone();
                        let action = Action {
                            name: def.name.clone(),
                            uses: def.uses.clone(),
                            runs: clone_opt_strings(&def.runs),
                            args: clone_opt_strings(&def.args),
                            needs: depends,
                            env,
                            secrets: clone_strings(&def.secrets),
                        };
                        let ghost before = actions.deep_view();
                        actions.push(action);
                        proof {
                            assert(actions.deep_view() =~= before.push(action.deep_view()));
                            let sofar = action_names(dv.take(i + 1));
                            assert(sofar[before.len() as int] == def.name@);
                            assert(names.take(sofar.len() as int)[before.len() as int]
                                == names[before.len() as int]);
                        }
                    },
                }
            },
        }
        i += 1;
    }
    proof {
        assert(dv.take(n as int) =~= dv);
    }
    match workflow {
        None => Err(ResolveError::MissingWorkflow),
        Some(w) => Ok(Hir::assemble(w, actions)),
    }
}

/// The resolved representation of `defs`: see [`generate_hir`].
pub fn build(defs: Vec<Def>) -> (r: Result<Hir, ResolveError>)
    ensures
        result_view(r) == resolve(defs.deep_view()),
{
    let all = defs.as_slice();
    assert(all.deep_view() =~= defs.deep_view());
    generate_hir(all)
}

} // verus!
