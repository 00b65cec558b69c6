//! Execution planning and caching for a single derivation.
//!
//! A derivation executes in a work directory named by its hash.  The cache
//! check classifies the directory: when it already existed and carries a
//! completion marker, prior output is reused and nothing is spawned;
//! otherwise the run proceeds.  Dependencies become symbolic links inside
//! the work directory, named by their hashes, so the rendered script can
//! reach each dependency's output under its hash.  The rendered command is
//! recorded in a command file and handed to a pluggable runtime; the
//! functions here decide and assemble all of that, while the surrounding
//! program performs the file system and process work and reports what it
//! saw.

use vstd::prelude::*;

use crate::derivation::Derivation;
use crate::derivation::DerivationView;
use crate::errors::BuildError;

verus! {

/// Whether a work directory's prior contents may be reused.
#[derive(Clone, Copy, Debug, PartialEq, Eq, Structural)]
pub enum CacheState {
    Valid,
    Invalid,
}

/// The cache rule: prior output is valid exactly when the work directory
/// already existed and carries the completion marker.
pub open spec fn spec_cache_state(already_existed: bool, marker_present: bool) -> CacheState {
    if already_existed && marker_present {
        CacheState::Valid
    } else {
        CacheState::Invalid
    }
}

/// Classifies a work directory after the attempt to create it: the
/// directory already existed or was just created, and the completion
/// marker was found or not.  A marker in a pre-existing directory means a
/// completed prior run; a missing marker means an interrupted one, which is
/// re-run.
pub fn make_dir_check_hash(already_existed: bool, marker_present: bool) -> (r: CacheState)
    ensures
        r == spec_cache_state(already_existed, marker_present),
{
    if already_existed && marker_present {
        CacheState::Valid
    } else {
        CacheState::Invalid
    }
}

/// The work directory of a derivation: `<root>/<hash>/run`.
pub open spec fn spec_work_dir(root: Seq<char>, hash: Seq<char>) -> Seq<char> {
    root + "/"@ + hash + "/run"@
}

/// Builds the work-directory path for a derivation hash.
pub fn work_dir_path(root: &String, hash: &String) -> (r: String)
    ensures
        r@ == spec_work_dir(root@, hash@),
{
    root.clone().concat("/").concat(hash.as_str()).concat("/run")
}

/// Where a dependency's output lives: `<root>/<hash>/run/out`.
pub open spec fn spec_link_target(root: Seq<char>, dep: Seq<char>) -> Seq<char> {
    spec_work_dir(root, dep) + "/out"@
}

/// Where the dependency link is created: `<work_dir>/<hash>`.
pub open spec fn spec_link_name(work_dir: Seq<char>, dep: Seq<char>) -> Seq<char> {
    work_dir + "/"@ + dep
}

/// The symbolic links that make a derivation's dependencies visible inside
/// its work directory: for each dependency hash, a link named by the hash
/// pointing at that dependency's output directory.  A derivation without
/// resolved edges gets none.
pub fn symlink_edges(edges: &Option<Vec<String>>, all_work_dir: &String, work_dir: &String) -> (r:
    Vec<(String, String)>)
    ensures
        edges is None ==> r@.len() == 0,
        edges matches Some(e) ==> r@.len() == e.deep_view().len() && forall|m: int|
            0 <= m < r@.len() ==> (#[trigger] r@[m]).0@ == spec_link_target(
                all_work_dir@,
                e.deep_view()[m],
            ) && r@[m].1@ == spec_link_name(work_dir@, e.deep_view()[m]),
{
    let mut out: Vec<(String, String)> = Vec::new();
    let edges = match edges {
        None => {
            return out;
        },
        Some(e) => e,
    };
    let mut m: usize = 0;
    while m < edges.len()
        invariant
            m <= edges@.len(),
            out@.len() == m,
            forall|q: int|
                0 <= q < m ==> (#[trigger] out@[q]).0@ == spec_link_target(
                    all_work_dir@,
                    edges.deep_view()[q],
                ) && out@[q].1@ == spec_link_name(work_dir@, edges.deep_view()[q]),
        decreases edges@.len() - m,
    {
        let dep = &edges[m];
        let target = work_dir_path(all_work_dir, dep).concat("/out");
        let name = work_dir.clone().concat("/").concat(dep.as_str());
        out.push((target, name));
        m = m + 1;
    }
    out
}

/// The file recording exactly what ran in a work directory:
/// `<work_dir>/.cmd`.
pub open spec fn spec_command_file(work_dir: Seq<char>) -> Seq<char> {
    work_dir + "/.cmd"@
}

/// Builds the command-file path for a work directory.
pub fn command_file_path(work_dir: &String) -> (r: String)
    ensures
        r@ == spec_command_file(work_dir@),
{
    work_dir.clone().concat("/.cmd")
}

/// The completion marker of a work directory: `<work_dir>/.finished`.
pub open spec fn spec_marker_file(work_dir: Seq<char>) -> Seq<char> {
    work_dir + "/.finished"@
}

/// Builds the completion-marker path for a work directory.
pub fn marker_file_path(work_dir: &String) -> (r: String)
    ensures
        r@ == spec_marker_file(work_dir@),
{
    work_dir.clone().concat("/.finished")
}

/// Wraps a raw command for the runtime that will execute it; the concrete
/// runtime decides how.
pub trait ContainerRuntimeFunctions {
    /// What the wrapped command looks like.
    spec fn spec_cmd(&self, cmd: Seq<char>) -> Seq<char>;

    /// Wraps a raw command.
    fn cmd(&self, cmd: String) -> (r: String)
        ensures
            r@ == self.spec_cmd(cmd@),
    ;
}

/// The absent container runtime: commands run as they are.
pub struct NoContainerRuntime {}

impl NoContainerRuntime {
    /// A runtime that wraps nothing.
    pub fn new() -> (r: Self) {
        Self {}
    }
}

impl ContainerRuntimeFunctions for NoContainerRuntime {
    open spec fn spec_cmd(&self, cmd: Seq<char>) -> Seq<char> {
        cmd
    }

    fn cmd(&self, cmd: String) -> (r: String) {
        cmd
    }
}

/// The closed set of container runtimes: only the no-op runtime exists so
/// far; sandboxed runtimes are an extension point.
pub enum ContainerRuntime {
    NoContainer(NoContainerRuntime),
}

impl ContainerRuntime {
    /// What wrapping a command with this runtime yields.
    pub open spec fn spec_wrapped(&self, cmd: Seq<char>) -> Seq<char> {
        match self {
            ContainerRuntime::NoContainer(rt) => rt.spec_cmd(cmd),
        }
    }

    /// Wraps a raw command for execution.
    pub fn cmd(&self, cmd: String) -> (r: String)
        ensures
            r@ == self.spec_wrapped(cmd@),
    {
        match self {
            ContainerRuntime::NoContainer(rt) => rt.cmd(cmd),
        }
    }
}

/// Everything the surrounding program needs to run one job: the shell, the
/// wrapped command, and the work directory to run it in.
pub struct JobRequest {
    pub shell: String,
    pub cmd: String,
    pub work_dir: String,
}

/// The local-process runtime: it records the submitted job; the program
/// around the library writes the command file, spawns the process, and
/// waits on it.
pub struct NoHPCRuntime {
    pub pending: Option<JobRequest>,
}

impl NoHPCRuntime {
    /// A runtime with nothing submitted.
    pub fn new() -> (r: Self)
        ensures
            r.pending is None,
    {
        Self { pending: None }
    }

    /// Passes a command through unchanged; the local runtime needs no
    /// wrapping of its own.
    pub fn cmd(&self, cmd: String) -> (r: String)
        ensures
            r == cmd,
    {
        cmd
    }

    /// Records a job for execution in `work_dir`.
    pub fn submit_job(&mut self, shell: String, cmd: String, work_dir: String)
        ensures
            final(self).pending matches Some(j) && j.shell == shell && j.cmd == cmd && j.work_dir
                == work_dir,
    {
        let cmd = self.cmd(cmd);
        self.pending = Some(JobRequest { shell, cmd, work_dir });
    }
}

/// The closed set of execution runtimes: a local process now; batch
/// schedulers are extension points.
pub enum HPCRuntime {
    NoHpc(NoHPCRuntime),
}

/// A batch-scheduler runtime, declared as an extension point and not yet
/// implemented.
pub struct LsfHPCRuntime {}

impl HPCRuntime {
    /// The job this runtime was handed, if any.
    pub fn pending_job(&self) -> (r: &Option<JobRequest>)
        ensures
            match self {
                HPCRuntime::NoHpc(rt) => r == &rt.pending,
            },
    {
        match self {
            HPCRuntime::NoHpc(rt) => &rt.pending,
        }
    }
}

/// What running a derivation against a cache state submits: nothing on a
/// valid cache, the rendered script text on an invalid one, and the empty
/// script error when the text cannot be rendered.
pub open spec fn spec_run_derivation(d: DerivationView, cache: CacheState) -> Result<
    Option<Seq<char>>,
    BuildError,
> {
    if cache is Valid {
        Ok(None)
    } else if d.renderable() {
        Ok(Some(d.text()))
    } else {
        Err(BuildError::EmptyScript)
    }
}

/// Prepares one derivation for execution, given the cache state its work
/// directory was found in.  On a valid cache no job is created and prior
/// output is reused; otherwise the final script text is rendered, wrapped
/// by the container runtime, and submitted to a fresh local runtime for
/// `work_dir`.
pub fn run_derivation(
    derivation: &Derivation,
    cache_state: CacheState,
    shell: String,
    work_dir: String,
) -> (r: Result<Option<HPCRuntime>, BuildError>)
    ensures
        match r {
            Ok(None) => spec_run_derivation(derivation@, cache_state) == Ok::<
                Option<Seq<char>>,
                BuildError,
            >(None),
            Ok(Some(HPCRuntime::NoHpc(rt))) => rt.pending matches Some(j) && spec_run_derivation(
                derivation@,
                cache_state,
            ) == Ok::<Option<Seq<char>>, BuildError>(Some(j.cmd@)) && j.cmd@ == derivation@.text()
                && j.shell == shell && j.work_dir == work_dir,
            Err(e) => spec_run_derivation(derivation@, cache_state) == Err::<
                Option<Seq<char>>,
                BuildError,
            >(e),
        },
{
    if let CacheState::Valid = cache_state {
        return Ok(None);
    }
    let container_runtime = ContainerRuntime::NoContainer(NoContainerRuntime::new());
    let cmd = match derivation.script() {
        Ok(text) => text,
        Err(e) => {
            return Err(e);
        },
    };
    let cmd = container_runtime.cmd(cmd);
    let mut hpc_r = NoHPCRuntime::new();
    hpc_r.submit_job(shell, cmd, work_dir);
    Ok(Some(HPCRuntime::NoHpc(hpc_r)))
}

/// Cache reuse: when the work directory already exists and carries the
/// completion marker — a completed prior run of the same derivation hash —
/// the cache is valid and a run submits no job at all, whatever the
/// derivation.
pub proof fn lemma_cache_reuse(d: DerivationView)
    ensures
        spec_cache_state(true, true) == CacheState::Valid,
        spec_run_derivation(d, spec_cache_state(true, true)) == Ok::<
            Option<Seq<char>>,
            BuildError,
        >(None),
{
}

} // verus!
