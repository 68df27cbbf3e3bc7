//! What running an action takes: the container image, the environment and
//! the command line, all computed here and left for the caller to carry out.

use vstd::prelude::*;
use vstd::string::*;
use crate::hir::{ActionId, ActionView, Hir, HirView};
use crate::string_map::{put, Entries, StringMap};
use crate::text::{clone_strings, joined, starts_with};
use crate::view::result_view;

verus! {

/// `std::path::PathBuf`, carried through as it is: nothing is read from it
/// and nothing is claimed of it.
#[verifier::external_type_specification]
#[verifier::external_body]
pub struct ExPathBuf(std::path::PathBuf);

/// What is known of the repository that the workflow belongs to.
pub struct GitInfo {
    commit: String,
}

impl GitInfo {
    /// The hash of the commit that is checked out.
    pub closed spec fn commit_view(&self) -> Seq<char> {
        self.commit@
    }

    pub fn new(commit: String) -> (info: GitInfo)
        ensures
            info.commit_view() == commit@,
    {
        GitInfo { commit }
    }

    pub fn commit(&self) -> (c: &String)
        ensures
            c@ == self.commit_view(),
    {
        &self.commit
    }
}

/// How to run the actions.
pub struct ExecOptions {
    pub git: GitInfo,
    /// The directory of the repository.
    pub dir: std::path::PathBuf,
    /// Only say what would be run.
    pub dry: bool,
    /// The directory on this machine that a container sees as its home.
    pub home_dir: String,
    /// The directory on this machine that a container sees as its workspace.
    pub workspace_dir: String,
}

/// Why an action cannot be run.
#[derive(Debug, Clone, PartialEq, Eq)]
pub enum ExecError {
    /// `uses` is not a reference to a pre-built image.
    UnsupportedImage { uses: String },
}

pub enum ExecErrorView {
    UnsupportedImage { uses: Seq<char> },
}

impl DeepView for ExecError {
    type V = ExecErrorView;

    open spec fn deep_view(&self) -> ExecErrorView {
        match self {
            ExecError::UnsupportedImage { uses } => ExecErrorView::UnsupportedImage { uses: uses@ },
        }
    }
}

impl ExecErrorView {
    /// What the error says.
    pub open spec fn message(self) -> Seq<char> {
        match self {
            ExecErrorView::UnsupportedImage { .. } => "only pre-built image references (docker://*) are supported currently"@,
        }
    }
}

impl ExecError {
    /// What the error says.
    pub fn message(&self) -> (m: String)
        ensures
            m@ == self.deep_view().message(),
    {
        match self {
            ExecError::UnsupportedImage { .. } => "only pre-built image references (docker://*) are supported currently".to_owned(),
        }
    }
}

/// What a reference to a pre-built image starts with.
pub open spec fn image_scheme() -> Seq<char> {
    "docker://"@
}

/// `s` without every scheme that it starts with.
pub open spec fn without_scheme(s: Seq<char>) -> Seq<char>
    decreases s.len(),
{
    if image_scheme().len() > 0 && image_scheme().is_prefix_of(s) {
        without_scheme(s.skip(image_scheme().len() as int))
    } else {
        s
    }
}

/// The image that `uses` refers to, if it refers to a pre-built one.
pub open spec fn image_of(uses: Seq<char>) -> Result<Seq<char>, ExecErrorView> {
    if image_scheme().is_prefix_of(uses) {
        Ok(without_scheme(uses))
    } else {
        Err(ExecErrorView::UnsupportedImage { uses })
    }
}

/// The name of the image that `s` refers to. Only references to pre-built
/// images, which start with `docker://`, are accepted.
pub fn provide_docker_image(s: &str) -> (r: Result<String, ExecError>)
    ensures
        result_view(r) == image_of(s@),
{
    if !starts_with(s, "docker://") {
        return Err(ExecError::UnsupportedImage { uses: s.to_owned() });
    }
    proof {
        reveal_strlit("docker://");
    }
    let mut rest = s;
    while starts_with(rest, "docker://")
        invariant
            without_scheme(rest@) == without_scheme(s@),
            "docker://"@.len() == 9,
        decreases rest@.len(),
    {
        let n = rest.unicode_len();
        let ghost before = rest@;
        rest = rest.substring_char(9, n);
        assert(rest@ =~= before.skip(9));
    }
    Ok(rest.to_owned())
}

/// The variables that every action finds in its environment, whatever it
/// declares itself, in the order in which they are set.
pub open spec fn reserved_env(workflow: Seq<char>, action: Seq<char>, commit: Seq<char>) -> Entries {
    seq![
        ("HOME"@, "/github/home"@),
        ("GITHUB_WORKFLOW"@, workflow),
        ("GITHUB_ACTION"@, action),
        ("GITHUB_EVENT_NAME"@, "push"@),
        ("GITHUB_EVENT_PATH"@, "/github/workflow/event.json"@),
        ("GITHUB_WORKSPACE"@, "/github/workspace"@),
        ("GITHUB_SHA"@, commit),
        ("GH_ACTIONS_RUNNER_LOCAL"@, "1"@),
    ]
}

/// `base` with every entry of `over` stored in turn: a key of `over`
/// replaces the value that `base` has for it.
pub open spec fn merged(base: Entries, over: Entries) -> Entries
    decreases over.len(),
{
    if over.len() == 0 {
        base
    } else {
        put(merged(base, over.drop_last()), over.last().0, over.last().1)
    }
}

/// The arguments that hand the environment to the container: for each
/// entry, in order, `--env` and `key=value`.
pub open spec fn env_args(env: Entries) -> Seq<Seq<char>>
    decreases env.len(),
{
    if env.len() == 0 {
        Seq::empty()
    } else {
        env_args(env.drop_last()) + seq!["--env"@, env.last().0 + "="@ + env.last().1]
    }
}

/// What the action runs: `runs` and then `args`, as far as it declares them.
pub open spec fn command_of(a: ActionView) -> Seq<Seq<char>> {
    let runs = match a.runs {
        Some(list) => list,
        None => Seq::empty(),
    };
    let args = match a.args {
        Some(list) => list,
        None => Seq::empty(),
    };
    runs + args
}

/// Whether the container's entry point can be told: an action that declares
/// `runs` must give at least one word in `runs` and `args` together.
pub open spec fn has_entrypoint(a: ActionView) -> bool {
    a.runs.is_some() ==> command_of(a).len() > 0
}

/// Every action of a representation in which the rules find nothing has an
/// entry point that can be told.
pub proof fn lemma_linted_has_entrypoint(h: HirView, act: int)
    requires
        crate::hir::lint::violations(h).len() == 0,
        0 <= act < h.actions.len(),
    ensures
        has_entrypoint(h.actions[act]),
{
    crate::hir::lint::lemma_lint_passes(h);
    assert(crate::hir::lint::lists_allowed(h.actions[act]));
}

/// The arguments that tell the container what to run: with `runs`, the
/// first word becomes the entry point and the rest follows the image; with
/// `args` alone, all of it follows the image.
pub open spec fn entry_args(a: ActionView, image: Seq<char>) -> Seq<Seq<char>> {
    if a.runs.is_some() {
        seq!["--entrypoint"@, command_of(a)[0], image] + command_of(a).skip(1)
    } else {
        seq![image] + command_of(a)
    }
}

/// The whole command line for the container runtime.
pub open spec fn docker_args(
    workflow: Seq<char>,
    a: ActionView,
    image: Seq<char>,
    commit: Seq<char>,
    workspace_dir: Seq<char>,
    home_dir: Seq<char>,
) -> Seq<Seq<char>> {
    seq!["run"@, "--rm"@] + env_args(merged(a.env, reserved_env(workflow, a.name, commit))) + seq![
        "--workdir"@,
        "/github/workspace"@,
        "--volume"@,
        workspace_dir + ":/github/workspace"@,
        "--volume"@,
        home_dir + ":/github/home"@,
    ] + entry_args(a, image)
}

/// The command line for action `act` of `h`, or why it has none.
pub open spec fn command_line_of(
    h: HirView,
    act: usize,
    commit: Seq<char>,
    workspace_dir: Seq<char>,
    home_dir: Seq<char>,
) -> Result<Seq<Seq<char>>, ExecErrorView> {
    let a = h.actions[act as int];
    match image_of(a.uses) {
        Err(e) => Err(e),
        Ok(image) => Ok(docker_args(h.workflow.name, a, image, commit, workspace_dir, home_dir)),
    }
}

/// Appends `--env` and `key=value` for every entry of `env`.
fn push_env_args(cmdline: &mut Vec<String>, env: &StringMap)
    ensures
        final(cmdline).deep_view() == old(cmdline).deep_view() + env_args(env.deep_view()),
{
    let ghost start = cmdline.deep_view();
    let ghost ev = env.deep_view();
    let n = env.len();
    let mut i: usize = 0;
    assert(ev.take(0) =~= Entries::empty());
    assert(start + Seq::<Seq<char>>::empty() =~= start);
    while i < n
        invariant
            i <= n,
            n == ev.len(),
            ev == env.deep_view(),
            cmdline.deep_view() == start + env_args(ev.take(i as int)),
        decreases n - i,
    {
        let ghost before = cmdline.deep_view();
        let mut pair = joined(env.key(i).as_str(), "=");
        pair.append(env.value(i).as_str());
        let flag = "--env".to_owned();
        cmdline.push(flag);
        cmdline.push(pair);
        proof {
            assert(ev.take(i + 1).drop_last() =~= ev.take(i as int));
            assert(cmdline.deep_view() =~= before + seq!["--env"@, ev[i as int].0 + "="@ + ev[i as int].1]);
            assert(start + env_args(ev.take(i as int)) + seq![
                "--env"@,
                ev[i as int].0 + "="@ + ev[i as int].1,
            ] =~= start + env_args(ev.take(i + 1)));
        }
        i += 1;
    }
    assert(ev.take(n as int) =~= ev);
}

/// Appends a copy of each of `words` from position `from` on.
fn push_words(cmdline: &mut Vec<String>, words: &Vec<String>, from: usize)
    requires
        from <= words@.len(),
    ensures
        final(cmdline).deep_view() == old(cmdline).deep_view() + words.deep_view().skip(from as int),
{
    let ghost start = cmdline.deep_view();
    let ghost wv = words.deep_view();
    let n = words.len();
    let mut i: usize = from;
    assert(start + wv.subrange(from as int, from as int) =~= start);
    while i < n
        invariant
            from <= i <= n,
            n == words@.len(),
            wv == words.deep_view(),
            cmdline.deep_view() == start + wv.subrange(from as int, i as int),
        decreases n - i,
    {
        let ghost before = cmdline.deep_view();
        cmdline.push(words[i].clone());
        proof {
            assert(cmdline.deep_view() =~= before.push(wv[i as int]));
            assert(start + wv.subrange(from as int, i as int + 1) =~= (start + wv.subrange(
                from as int,
                i as int,
            )).push(wv[i as int]));
        }
        i += 1;
    }
    assert(wv.subrange(from as int, n as int) =~= wv.skip(from as int));
}

/// The command line that runs action `act` in a container: the arguments
/// for the container runtime, without the runtime's own name.
///
/// The action's environment is handed on with the reserved variables set
/// over it, the workspace and home directories are mounted, and the image
/// is run with what the action's `runs` and `args` say.
pub fn command_line(h: &Hir, act: ActionId, opts: &ExecOptions) -> (r: Result<
    Vec<String>,
    ExecError,
>)
    requires
        act.deep_view() < h.deep_view().actions.len(),
        has_entrypoint(h.deep_view().actions[act.deep_view() as int]),
    ensures
        result_view(r) == command_line_of(
            h.deep_view(),
            act.deep_view(),
            opts.git.commit_view(),
            opts.workspace_dir@,
            opts.home_dir@,
        ),
{
    let act = h.action(act);
    let ghost a = act.deep_view();
    let image = match provide_docker_image(act.uses.as_str()) {
        Ok(image) => image,
        Err(e) => {
            return Err(e);
        },
    };
    let mut cmdline: Vec<String> = Vec::new();
    cmdline.push("run".to_owned());
    cmdline.push("--rm".to_owned());
    assert(cmdline.deep_view() =~= seq!["run"@, "--rm"@]);

    let workflow = h.workflow();
    let mut env = act.env.clone();
    let ghost over = reserved_env(workflow.name@, act.name@, opts.git.commit_view());
    proof {
        assert(over.take(0) =~= Entries::empty());
        assert forall|k: int| 0 <= k < over.len() implies over.take(k + 1).drop_last()
            == #[trigger] over.take(k) by {
            assert(over.take(k + 1).drop_last() =~= over.take(k));
        }
        assert(over.take(8) =~= over);
        assert(merged(a.env, over.take(0)) == a.env);
    }
    env.insert("HOME".to_owned(), "/github/home".to_owned());
    assert(env.deep_view() == merged(a.env, over.take(1)));
    env.insert("GITHUB_WORKFLOW".to_owned(), workflow.name.clone());
    assert(env.deep_view() == merged(a.env, over.take(2)));
    env.insert("GITHUB_ACTION".to_owned(), act.name.clone());
    assert(env.deep_view() == merged(a.env, over.take(3)));
    env.insert("GITHUB_EVENT_NAME".to_owned(), "push".to_owned());
    assert(env.deep_view() == merged(a.env, over.take(4)));
    env.insert("GITHUB_EVENT_PATH".to_owned(), "/github/workflow/event.json".to_owned());
    assert(env.deep_view() == merged(a.env, over.take(5)));
    env.insert("GITHUB_WORKSPACE".to_owned(), "/github/workspace".to_owned());
    assert(env.deep_view() == merged(a.env, over.take(6)));
    env.insert("GITHUB_SHA".to_owned(), opts.git.commit().clone());
    assert(env.deep_view() == merged(a.env, over.take(7)));
    env.insert("GH_ACTIONS_RUNNER_LOCAL".to_owned(), "1".to_owned());
    assert(env.deep_view() == merged(a.env, over));

    push_env_args(&mut cmdline, &env);
    let ghost with_env = cmdline.deep_view();
    cmdline.push("--workdir".to_owned());
    cmdline.push("/github/workspace".to_owned());
    cmdline.push("--volume".to_owned());
    cmdline.push(joined(opts.workspace_dir.as_str(), ":/github/workspace"));
    cmdline.push("--volume".to_owned());
    cmdline.push(joined(opts.home_dir.as_str(), ":/github/home"));
    assert(cmdline.deep_view() =~= with_env + seq![
        "--workdir"@,
        "/github/workspace"@,
        "--volume"@,
        opts.workspace_dir@ + ":/github/workspace"@,
        "--volume"@,
        opts.home_dir@ + ":/github/home"@,
    ]);
    let ghost mounted = cmdline.deep_view();

    match &act.runs {
        Some(runs) => {
            let mut all = clone_strings(runs);
            if let Some(args) = &act.args {
                push_words(&mut all, args, 0);
                assert(args.deep_view().skip(0) =~= args.deep_view());
            } else {
                assert(all.deep_view() + Seq::<Seq<char>>::empty() =~= all.deep_view());
            }
            assert(all.deep_view() == command_of(a));
            cmdline.push("--entrypoint".to_owned());
            cmdline.push(all[0].clone());
            cmdline.push(image);
            assert(cmdline.deep_view() =~= mounted + seq![
                "--entrypoint"@,
                command_of(a)[0],
                image@,
            ]);
            push_words(&mut cmdline, &all, 1);
        },
        None => {
            cmdline.push(image);
            assert(cmdline.deep_view() =~= mounted + seq![image@]);
            if let Some(args) = &act.args {
                push_words(&mut cmdline, args, 0);
                assert(args.deep_view().skip(0) =~= args.deep_view());
                assert(Seq::<Seq<char>>::empty() + args.deep_view() =~= args.deep_view());
            } else {
                assert(cmdline.deep_view() + Seq::<Seq<char>>::empty() =~= cmdline.deep_view());
                assert(command_of(a) =~= Seq::<Seq<char>>::empty());
            }
        },
    }
    assert(cmdline.deep_view() =~= docker_args(
        workflow.name@,
        a,
        image@,
        opts.git.commit_view(),
        opts.workspace_dir@,
        opts.home_dir@,
    ));
    Ok(cmdline)
}

} // verus!
