//! Background tasks run on behalf of an MCP client: the record kept of each
//! task, the collection of them, the tool arguments and results, and what is
//! decided when a task is ensured or its logs are read.  Spawning processes,
//! signals, files and the MCP transport are the program's business.
use vstd::prelude::*;
use std::time::Instant;
use crate::dgmod::resolver::{join, join_path};
use crate::ffbm::db::texts;
use crate::text::{
    append_chars, chars_eq, chars_of, join as join_text, join_chars, lines_chars, lines_of,
    string_of,
};

verus! {

/// `std::time::Instant`, a reading of a monotonic clock.
#[verifier::external_type_specification]
#[verifier::external_body]
pub struct ExInstant(Instant);

/// Information about a managed task.
#[derive(Debug)]
pub struct TaskInfo {
    /// Unique name of the task.
    pub name: String,
    /// Process ID of the running task.
    pub pid: u32,
    /// The command that was executed.
    pub command: String,
    /// Working directory the command runs in.
    pub cwd: Option<String>,
    /// Path to the stdout log file.
    pub stdout_path: String,
    /// Path to the stderr log file.
    pub stderr_path: String,
    /// When the task was started.
    pub started_at: Instant,
}

/// A task as the plain values the collection keeps of it.
pub struct TaskView {
    pub name: Seq<char>,
    pub pid: u32,
    pub command: Seq<char>,
    pub cwd: Option<Seq<char>>,
    pub stdout_path: Seq<char>,
    pub stderr_path: Seq<char>,
    pub started_at: Instant,
}

/// The plain values of a task.
pub open spec fn task_view(t: TaskInfo) -> TaskView {
    TaskView {
        name: t.name@,
        pid: t.pid,
        command: t.command@,
        cwd: match t.cwd {
            Some(c) => Some(c@),
            None => None,
        },
        stdout_path: t.stdout_path@,
        stderr_path: t.stderr_path@,
        started_at: t.started_at,
    }
}

/// `Instant::clone`, which copies the reading.
#[verifier::external_body]
fn copy_instant(i: &Instant) -> (r: Instant)
    ensures
        r == *i,
{
    *i
}

impl TaskInfo {
    /// A copy of the record.
    pub fn copy(&self) -> (r: TaskInfo)
        ensures
            task_view(r) == task_view(*self),
    {
        TaskInfo {
            name: self.name.clone(),
            pid: self.pid,
            command: self.command.clone(),
            cwd: match &self.cwd {
                Some(c) => Some(c.clone()),
                None => None,
            },
            stdout_path: self.stdout_path.clone(),
            stderr_path: self.stderr_path.clone(),
            started_at: copy_instant(&self.started_at),
        }
    }
}

/// Manages the collection of tracked tasks: at most one task per name.
pub struct TaskManager {
    tasks: Vec<TaskInfo>,
}

/// No two tasks share a name.
pub open spec fn names_unique(ts: Seq<TaskView>) -> bool {
    forall|i: int, j: int| 0 <= i < j < ts.len() ==> ts[i].name != ts[j].name
}

/// The task named `name` among `ts`, if any.
pub open spec fn find_task(ts: Seq<TaskView>, name: Seq<char>) -> Option<TaskView>
    decreases ts.len(),
{
    if ts.len() == 0 {
        None
    } else if ts.last().name == name {
        Some(ts.last())
    } else {
        find_task(ts.drop_last(), name)
    }
}

/// `ts` without the task named `name`.
pub open spec fn without(ts: Seq<TaskView>, name: Seq<char>) -> Seq<TaskView>
    decreases ts.len(),
{
    if ts.len() == 0 {
        Seq::empty()
    } else if ts.last().name == name {
        without(ts.drop_last(), name)
    } else {
        without(ts.drop_last(), name).push(ts.last())
    }
}

/// After a task is added to a collection (appended, or put in place of the
/// task of its name), its name finds it and every other name finds what it
/// found before; after the tasks of a name are removed, that name finds
/// nothing and every other name finds what it found before.
pub proof fn lemma_task_lookup_laws(ts: Seq<TaskView>, t: TaskView, i: int, x: Seq<char>)
    requires
        names_unique(ts),
    ensures
        find_task(ts.push(t), x) == (if x == t.name {
            Some(t)
        } else {
            find_task(ts, x)
        }),
        0 <= i < ts.len() && ts[i].name == t.name ==> find_task(ts.update(i, t), x) == (if x
            == t.name {
            Some(t)
        } else {
            find_task(ts, x)
        }),
        find_task(without(ts, t.name), x) == (if x == t.name {
            None
        } else {
            find_task(ts, x)
        }),
{
    assert(ts.push(t).drop_last() =~= ts);
    lemma_find_without(ts, t.name, x);
    if 0 <= i < ts.len() && ts[i].name == t.name {
        lemma_find_update(ts, i, t, x);
    }
}

impl TaskManager {
    /// The tasks, in the order they were first inserted.
    pub closed spec fn model(&self) -> Seq<TaskView> {
        self.tasks@.map_values(|t: TaskInfo| task_view(t))
    }

    /// The tasks by name.
    pub open spec fn by_name(&self) -> Map<Seq<char>, TaskView> {
        Map::new(
            |n: Seq<char>| find_task(self.model(), n) is Some,
            |n: Seq<char>| find_task(self.model(), n)->Some_0,
        )
    }

    /// The collection's invariant: no two tasks share a name.
    pub open spec fn wf(&self) -> bool {
        names_unique(self.model())
    }

    /// Create a new empty task manager.
    pub fn new() -> (r: TaskManager)
        ensures
            r.wf(),
            r.model() == Seq::<TaskView>::empty(),
    {
        let r = TaskManager { tasks: Vec::new() };
        assert(r.model() =~= Seq::<TaskView>::empty());
        r
    }

    fn position(&self, name: &str) -> (r: Option<usize>)
        requires
            self.wf(),
        ensures
            match r {
                Some(i) => i < self.model().len() && self.model()[i as int].name == name@
                    && find_task(self.model(), name@) == Some(self.model()[i as int]),
                None => find_task(self.model(), name@) is None && forall|k: int|
                    0 <= k < self.model().len() ==> self.model()[k].name != name@,
            },
    {
        let ghost m = self.model();
        let key = chars_of(name);
        let mut j: usize = self.tasks.len();
        assert(m.take(j as int) =~= m);
        while j > 0
            invariant
                j <= m.len(),
                m == self.model(),
                m.len() == self.tasks@.len(),
                key@ == name@,
                find_task(m, name@) == find_task(m.take(j as int), name@),
                forall|k: int| j <= k < m.len() ==> m[k].name != name@,
            decreases j,
        {
            assert(m.take(j as int).drop_last() =~= m.take(j - 1));
            assert(m[j - 1] == task_view(self.tasks@[j - 1]));
            if chars_eq(&chars_of(self.tasks[j - 1].name.as_str()), &key) {
                return Some(j - 1);
            }
            j = j - 1;
        }
        None
    }

    /// Get a task by name.
    pub fn get(&self, name: &str) -> (r: Option<TaskInfo>)
        requires
            self.wf(),
        ensures
            match find_task(self.model(), name@) {
                Some(t) => r matches Some(x) && task_view(x) == t,
                None => r is None,
            },
    {
        match self.position(name) {
            Some(i) => {
                assert(self.model()[i as int] == task_view(self.tasks@[i as int]));
                Some(self.tasks[i].copy())
            },
            None => None,
        }
    }

    /// Insert or update a task: it replaces the task of the same name, if
    /// there is one, and else comes last.
    pub fn insert(&mut self, info: TaskInfo)
        requires
            old(self).wf(),
        ensures
            final(self).wf(),
            find_task(old(self).model(), info.name@) is Some ==> exists|i: int|
                0 <= i < old(self).model().len() && old(self).model()[i].name == info.name@
                    && final(self).model() == old(self).model().update(i, task_view(info)),
            find_task(old(self).model(), info.name@) is None ==> final(self).model() == old(
                self,
            ).model().push(task_view(info)),
            final(self).by_name() == old(self).by_name().insert(info.name@, task_view(info)),
    {
        let ghost before = self.model();
        let ghost iv = task_view(info);
        match self.position(info.name.as_str()) {
            Some(i) => {
                self.tasks.set(i, info);
                assert(self.model() =~= before.update(i as int, iv));
                assert forall|a: int, b: int|
                    0 <= a < b < self.model().len() implies self.model()[a].name
                    != self.model()[b].name by {
                    assert(before[a].name != before[b].name);
                }
                proof {
                    assert forall|n: Seq<char>| #[trigger]
                        find_task(self.model(), n) == (if n == iv.name {
                            Some(iv)
                        } else {
                            find_task(before, n)
                        }) by {
                        lemma_find_update(before, i as int, iv, n);
                    }
                }
            },
            None => {
                self.tasks.push(info);
                assert(self.model() =~= before.push(iv));
                assert(self.model().drop_last() =~= before);
            },
        }
        assert(self.by_name() =~= old(self).by_name().insert(iv.name, iv));
    }

    /// Remove a task by name, returning it if it existed.
    pub fn remove(&mut self, name: &str) -> (r: Option<TaskInfo>)
        requires
            old(self).wf(),
        ensures
            final(self).wf(),
            match find_task(old(self).model(), name@) {
                Some(t) => r matches Some(x) && task_view(x) == t,
                None => r is None,
            },
            final(self).model() == without(old(self).model(), name@),
            final(self).by_name() == old(self).by_name().remove(name@),
    {
        let ghost before = self.model();
        match self.position(name) {
            Some(i) => {
                let t = self.tasks.remove(i);
                proof {
                    assert(self.model() =~= before.remove(i as int));
                    assert(before =~= before.take(i as int) + seq![before[i as int]] + before.skip(i + 1));
                    assert(self.model() =~= before.take(i as int) + before.skip(i + 1));
                    assert forall|k: int| 0 <= k < before.len() && k != i implies before[k].name
                        != name@ by {
                        if k < i {
                            assert(before[k].name != before[i as int].name);
                        } else {
                            assert(before[i as int].name != before[k].name);
                        }
                    }
                    lemma_without_one(before, name@, i as int);
                    assert forall|n: Seq<char>| #[trigger]
                        find_task(self.model(), n) == (if n == name@ {
                            None
                        } else {
                            find_task(before, n)
                        }) by {
                        lemma_find_without(before, name@, n);
                    }
                    assert(self.by_name() =~= old(self).by_name().remove(name@));
                }
                Some(t)
            },
            None => {
                proof {
                    lemma_without_none(before, name@);
                    assert(self.by_name() =~= old(self).by_name().remove(name@));
                }
                None
            },
        }
    }

    /// List all tracked tasks.
    pub fn list(&self) -> (r: Vec<TaskInfo>)
        ensures
            r@.map_values(|t: TaskInfo| task_view(t)) == self.model(),
    {
        let mut out: Vec<TaskInfo> = Vec::new();
        let mut i: usize = 0;
        while i < self.tasks.len()
            invariant
                i <= self.tasks@.len(),
                out@.map_values(|t: TaskInfo| task_view(t)) == self.model().take(i as int),
            decreases self.tasks@.len() - i,
        {
            let ghost before = out@.map_values(|t: TaskInfo| task_view(t));
            let t = self.tasks[i].copy();
            let ghost tv = task_view(t);
            out.push(t);
            assert(out@.map_values(|t: TaskInfo| task_view(t)) =~= before.push(tv));
            assert(self.model()[i as int] == task_view(self.tasks@[i as int]));
            i = i + 1;
            assert(out@.map_values(|t: TaskInfo| task_view(t)) =~= self.model().take(i as int));
        }
        assert(self.model().take(self.tasks@.len() as int) =~= self.model());
        out
    }
}

proof fn lemma_without_none(ts: Seq<TaskView>, name: Seq<char>)
    requires
        forall|k: int| 0 <= k < ts.len() ==> ts[k].name != name,
    ensures
        without(ts, name) == ts,
    decreases ts.len(),
{
    if ts.len() > 0 {
        lemma_without_none(ts.drop_last(), name);
        assert(ts.drop_last().push(ts.last()) =~= ts);
    }
}

proof fn lemma_without_one(ts: Seq<TaskView>, name: Seq<char>, i: int)
    requires
        0 <= i < ts.len(),
        ts[i].name == name,
        forall|k: int| 0 <= k < ts.len() && k != i ==> ts[k].name != name,
    ensures
        without(ts, name) == ts.take(i) + ts.skip(i + 1),
    decreases ts.len(),
{
    if i == ts.len() - 1 {
        assert(ts.drop_last() =~= ts.take(i));
        lemma_without_none(ts.drop_last(), name);
        assert(ts.skip(i + 1) =~= Seq::<TaskView>::empty());
        assert(ts.take(i) + ts.skip(i + 1) =~= ts.take(i));
    } else {
        lemma_without_one(ts.drop_last(), name, i);
        assert(ts.drop_last().take(i) =~= ts.take(i));
        assert(ts.take(i) + ts.skip(i + 1) =~= (ts.take(i) + ts.drop_last().skip(i + 1)).push(
            ts.last(),
        ));
    }
}

proof fn lemma_find_update(ts: Seq<TaskView>, i: int, v: TaskView, n: Seq<char>)
    requires
        names_unique(ts),
        0 <= i < ts.len(),
        ts[i].name == v.name,
    ensures
        find_task(ts.update(i, v), n) == (if n == v.name {
            Some(v)
        } else {
            find_task(ts, n)
        }),
    decreases ts.len(),
{
    let u = ts.update(i, v);
    if i == ts.len() - 1 {
        assert(u.drop_last() =~= ts.drop_last());
    } else {
        assert(u.drop_last() =~= ts.drop_last().update(i, v));
        lemma_find_update(ts.drop_last(), i, v, n);
        if n == v.name {
            assert(ts.last().name != ts[i].name);
        }
    }
    if n == v.name && i == ts.len() - 1 {
    } else if n != v.name {
    }
}

proof fn lemma_find_without(ts: Seq<TaskView>, name: Seq<char>, n: Seq<char>)
    ensures
        find_task(without(ts, name), n) == (if n == name {
            None
        } else {
            find_task(ts, n)
        }),
    decreases ts.len(),
{
    if ts.len() > 0 {
        lemma_find_without(ts.drop_last(), name, n);
        if ts.last().name != name {
            assert(without(ts, name).drop_last() =~= without(ts.drop_last(), name));
        }
    }
}

/// Arguments for the `task_ensure` tool.
#[derive(Debug)]
pub struct TaskEnsureArgs {
    /// Unique name for the task.
    pub name: String,
    /// Shell command to execute.
    pub command: String,
    /// Working directory (optional).
    pub cwd: Option<String>,
}

/// Arguments for the `task_stop` tool.
#[derive(Debug)]
pub struct TaskStopArgs {
    /// Name of the task to stop.
    pub name: String,
}

/// Arguments for the `task_logs` tool.
#[derive(Debug)]
pub struct TaskLogsArgs {
    /// Name of the task.
    pub name: String,
    /// Number of lines to return (default: 50).
    pub tail: Option<usize>,
}

/// Status information for a task.
#[derive(Debug)]
pub struct TaskStatus {
    /// Task name.
    pub name: String,
    /// Process ID.
    pub pid: u32,
    /// The command being run.
    pub command: String,
    /// Working directory.
    pub cwd: Option<String>,
    /// Whether the process is still alive.
    pub alive: bool,
    /// Seconds since the task was started.
    pub uptime_secs: u64,
}

/// Result of `task_ensure`.
#[derive(Debug)]
pub struct TaskEnsureResult {
    /// `"started"` or `"already_running"`.
    pub status: String,
    /// Task status information.
    pub task: TaskStatus,
}

/// Result of `task_stop`.
#[derive(Debug)]
pub struct TaskStopResult {
    /// Always "stopped".
    pub status: String,
    /// Name of the stopped task.
    pub name: String,
}

/// Result of `task_list`.
#[derive(Debug)]
pub struct TaskListResult {
    /// List of all tracked tasks.
    pub tasks: Vec<TaskStatus>,
}

/// Result of `task_logs`.
#[derive(Debug)]
pub struct TaskLogsResult {
    /// Task name.
    pub name: String,
    /// Recent stdout output.
    pub stdout: String,
    /// Recent stderr output.
    pub stderr: String,
}

/// The process ID as `kill` takes it; IDs beyond `i32` become 0.
pub fn raw_pid(pid: u32) -> (r: i32)
    ensures
        r == (if pid <= i32::MAX {
            pid as i32
        } else {
            0
        }),
{
    if pid <= 2147483647 {
        pid as i32
    } else {
        0
    }
}

/// Whether signal 0 reaches the process `pid` (`nix::sys::signal::kill`
/// with no signal succeeds), which checks that it exists without signalling
/// it.  The answer comes from the operating system, so nothing is stated.
#[verifier::external_body]
fn signal_probe(pid: i32) -> bool {
    nix::sys::signal::kill(nix::unistd::Pid::from_raw(pid), None).is_ok()
}

/// Sends `SIGTERM` to the process `pid` (`nix::sys::signal::kill`), giving
/// the error's message where it fails; whether it fails comes from the
/// operating system, so nothing is stated.
#[verifier::external_body]
fn send_sigterm(pid: i32) -> Result<(), String> {
    nix::sys::signal::kill(nix::unistd::Pid::from_raw(pid), nix::sys::signal::Signal::SIGTERM).map_err(
        |e| e.to_string(),
    )
}

/// Check if a process with the given PID is still alive.
pub fn is_alive(pid: u32) -> bool {
    signal_probe(raw_pid(pid))
}

/// Send SIGTERM to a process; the error's message where it could not be sent.
pub fn terminate(pid: u32) -> Result<(), String> {
    send_sigterm(raw_pid(pid))
}

/// Whole seconds elapsed since `i` (`Instant::elapsed` then
/// `Duration::as_secs`); it depends on the clock, so nothing is stated.
#[verifier::external_body]
fn seconds_since(i: &Instant) -> u64 {
    i.elapsed().as_secs()
}

/// Whole seconds elapsed since `started_at`, by the clock.
pub fn uptime_secs(started_at: &Instant) -> u64 {
    seconds_since(started_at)
}

/// Convert a task's record to its status for API responses: its own fields,
/// what `alive` answers for its pid (the program passes `is_alive`), and what
/// `uptime` answers for its start (the program passes `uptime_secs`).
pub fn task_to_status<F: Fn(u32) -> bool, G: Fn(&Instant) -> u64>(info: &TaskInfo, alive: F, uptime: G) -> (r: TaskStatus)
    requires
        call_requires(alive, (info.pid,)),
        call_requires(uptime, (&info.started_at,)),
    ensures
        call_ensures(alive, (info.pid,), r.alive),
        call_ensures(uptime, (&info.started_at,), r.uptime_secs),
        r.name@ == info.name@,
        r.pid == info.pid,
        r.command@ == info.command@,
        match info.cwd {
            Some(c) => r.cwd matches Some(d) && d@ == c@,
            None => r.cwd is None,
        },
{
    TaskStatus {
        name: info.name.clone(),
        pid: info.pid,
        command: info.command.clone(),
        cwd: match &info.cwd {
            Some(c) => Some(c.clone()),
            None => None,
        },
        alive: alive(info.pid),
        uptime_secs: uptime(&info.started_at),
    }
}

/// What `task_ensure` does with the task of the name it was given.
#[derive(Debug, PartialEq, Eq, Structural)]
pub enum EnsureStep {
    /// The task runs: report it as it is.
    AlreadyRunning,
    /// The task is known but its process is gone: remove it, clean up its
    /// logs, and start it anew.
    Restart,
    /// No such task: start it.
    Start,
}

/// Decides `task_ensure`: `existing` tells whether a task of that name is
/// known and, if so, whether its process is alive.
pub fn ensure_step(existing: Option<bool>) -> (r: EnsureStep)
    ensures
        r == (match existing {
            Some(true) => EnsureStep::AlreadyRunning,
            Some(false) => EnsureStep::Restart,
            None => EnsureStep::Start,
        }),
{
    match existing {
        Some(true) => EnsureStep::AlreadyRunning,
        Some(false) => EnsureStep::Restart,
        None => EnsureStep::Start,
    }
}

/// What `task_ensure` decides for `name`, given the tasks by name and
/// whether the process of the task recorded under it is alive.
pub open spec fn ensure_decision(tasks: Map<Seq<char>, TaskView>, name: Seq<char>, alive: bool) -> EnsureStep {
    if tasks.dom().contains(name) {
        if alive {
            EnsureStep::AlreadyRunning
        } else {
            EnsureStep::Restart
        }
    } else {
        EnsureStep::Start
    }
}

/// Decides `task_ensure` for `name`: the task recorded under it, if any, and
/// what to do, after asking `alive` whether the recorded task's process is
/// alive (the program passes `is_alive`, which asks the operating system).
pub fn decide_ensure<F: Fn(u32) -> bool>(manager: &TaskManager, name: &str, alive: F) -> (r: (
    EnsureStep,
    Option<TaskInfo>,
))
    requires
        manager.wf(),
        forall|p: u32| call_requires(alive, (p,)),
    ensures
        match find_task(manager.model(), name@) {
            None => r.0 == EnsureStep::Start && r.1 is None && r.0 == ensure_decision(
                manager.by_name(),
                name@,
                false,
            ),
            Some(t) => r.1 matches Some(x) && task_view(x) == t && exists|b: bool|
                call_ensures(alive, (t.pid,), b) && r.0 == ensure_decision(manager.by_name(), name@, b),
        },
{
    let existing = manager.get(name);
    let answer = match &existing {
        Some(t) => Some(alive(t.pid)),
        None => None,
    };
    let step = ensure_step(answer);
    proof {
        assert(manager.by_name().dom().contains(name@) == (find_task(manager.model(), name@) is Some));
        if let Some(b) = answer {
            assert(step == ensure_decision(manager.by_name(), name@, b));
        }
    }
    (step, existing)
}

/// `task_ensure` twice: once a task is recorded under its name, whether it
/// replaced an older task of that name or not, a second `task_ensure` for that
/// name while its process lives keeps it and reports it, with its pid.
pub proof fn lemma_ensure_twice(tasks: Map<Seq<char>, TaskView>, t: TaskView)
    ensures
        ensure_decision(tasks.insert(t.name, t), t.name, true) == EnsureStep::AlreadyRunning,
        tasks.insert(t.name, t)[t.name] == t,
        ensure_decision(tasks.remove(t.name).insert(t.name, t), t.name, true) == EnsureStep::AlreadyRunning,
        tasks.remove(t.name).insert(t.name, t)[t.name] == t,
{
}

/// The status `task_ensure` reports: `already_running` or `started`.
pub fn ensure_status(already_running: bool) -> (r: String)
    ensures
        r@ == (if already_running {
            "already_running"@
        } else {
            "started"@
        }),
{
    if already_running {
        String::from_str("already_running")
    } else {
        String::from_str("started")
    }
}

/// The message for a task name that is not known.
pub fn not_found_message(name: &str) -> (r: String)
    ensures
        r@ == "task not found: "@ + name@,
{
    let mut t = chars_of("task not found: ");
    append_chars(&mut t, &chars_of(name));
    string_of(&t)
}

/// The number of log lines returned when none is asked for.
pub const DEFAULT_TAIL: usize = 50;

/// The last `n` lines of `content`, joined with newlines.
pub open spec fn tail_text(content: Seq<char>, n: nat) -> Seq<char> {
    let ls = lines_of(content);
    let start = if ls.len() >= n {
        ls.len() - n
    } else {
        0
    };
    join_text(ls.skip(start), "\n"@)
}

/// The tail of a log's text: its last `lines` lines, joined with newlines.
pub fn tail_lines(content: &str, lines: usize) -> (r: String)
    ensures
        r@ == tail_text(content@, lines as nat),
{
    let all = lines_chars(&chars_of(content));
    let start = if all.len() >= lines {
        all.len() - lines
    } else {
        0
    };
    let mut kept: Vec<Vec<char>> = Vec::new();
    let mut i: usize = start;
    let ghost lv = all@.map_values(|v: Vec<char>| v@);
    while i < all.len()
        invariant
            start <= i <= all@.len(),
            lv == all@.map_values(|v: Vec<char>| v@),
            kept@.map_values(|v: Vec<char>| v@) == lv.subrange(start as int, i as int),
        decreases all@.len() - i,
    {
        let ghost before = kept@.map_values(|v: Vec<char>| v@);
        let line = crate::text::slice_range(&all[i], 0, all[i].len());
        let ghost l = line@;
        kept.push(line);
        assert(kept@.map_values(|v: Vec<char>| v@) =~= before.push(l));
        assert(all@[i as int]@.subrange(0, all@[i as int]@.len() as int) =~= all@[i as int]@);
        i = i + 1;
        assert(kept@.map_values(|v: Vec<char>| v@) =~= lv.subrange(start as int, i as int));
    }
    assert(lv.subrange(start as int, all@.len() as int) =~= lv.skip(start as int));
    string_of(&join_chars(&kept, &chars_of("\n")))
}

/// The log file names of task `name`, in the directory `temp_dir`: its
/// stdout log, then its stderr log.
pub open spec fn log_paths_of(temp_dir: Seq<char>, name: Seq<char>) -> (Seq<char>, Seq<char>) {
    (
        join_path(temp_dir, "task-mcp-"@ + name + "-stdout.log"@),
        join_path(temp_dir, "task-mcp-"@ + name + "-stderr.log"@),
    )
}

/// The paths of the log files of task `name` in `temp_dir`.
pub fn create_log_paths(temp_dir: &str, name: &str) -> (r: (String, String))
    ensures
        (r.0@, r.1@) == log_paths_of(temp_dir@, name@),
{
    let mut out = chars_of("task-mcp-");
    append_chars(&mut out, &chars_of(name));
    let mut err = out.clone();
    append_chars(&mut out, &chars_of("-stdout.log"));
    append_chars(&mut err, &chars_of("-stderr.log"));
    (join(temp_dir, string_of(&out).as_str()), join(temp_dir, string_of(&err).as_str()))
}

} // verus!
