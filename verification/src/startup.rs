//! What the program does when it starts.

use crate::app_settings::AppSettings;
use crate::text::{owned, same_str};
use vstd::prelude::*;
use vstd::string::StringExecFns;

verus! {

pub const TASK_CLEANUP: &'static str = "cleanup_stale_jobs";

pub const TASK_GPS_BACKFILL: &'static str = "gps_backfill";

pub const TASK_CROSS_OS_REBUILD: &'static str = "cross_os_rebuild";

/// The most trips whose positions are read at one start.
pub const GPS_BACKFILL_LIMIT: usize = 50;

/// How far a task is.
#[derive(Debug, Clone, Copy, PartialEq, Eq, Structural)]
pub enum TaskStatus {
    Pending,
    Running,
    Done,
    Failed,
}

/// A task of the start. Where `total` is not known, neither is how far the task
/// is.
#[derive(Debug)]
pub struct StartupTask {
    pub id: String,
    pub label: String,
    pub description: String,
    pub current: usize,
    pub total: Option<usize>,
    pub status: TaskStatus,
}

impl Clone for StartupTask {
    fn clone(&self) -> (r: Self)
        ensures
            r == *self,
    {
        StartupTask {
            id: self.id.clone(),
            label: self.label.clone(),
            description: self.description.clone(),
            current: self.current,
            total: self.total,
            status: self.status,
        }
    }
}

/// A task, with texts as sequences of characters.
#[verifier::ext_equal]
pub struct TaskView {
    pub id: Seq<char>,
    pub label: Seq<char>,
    pub description: Seq<char>,
    pub current: usize,
    pub total: Option<usize>,
    pub status: TaskStatus,
}

impl View for StartupTask {
    type V = TaskView;

    open spec fn view(&self) -> TaskView {
        TaskView {
            id: self.id@,
            label: self.label@,
            description: self.description@,
            current: self.current,
            total: self.total,
            status: self.status,
        }
    }
}

/// The views of tasks.
pub open spec fn task_views(v: Seq<StartupTask>) -> Seq<TaskView> {
    v.map_values(|t: StartupTask| t@)
}

/// The tasks of the start, and whether they are over.
#[derive(Debug)]
pub struct StartupSnapshot {
    pub tasks: Vec<StartupTask>,
    pub done: bool,
}

/// Nothing to do.
pub fn new_state() -> (r: StartupSnapshot)
    ensures
        task_views(r.tasks@) == Seq::<TaskView>::empty(),
        r.done,
{
    let r = StartupSnapshot { tasks: Vec::new(), done: true };
    proof {
        assert(task_views(r.tasks@) == Seq::<TaskView>::empty());
    }
    r
}

/// A task that waits.
pub open spec fn waiting(
    id: Seq<char>,
    label: Seq<char>,
    description: Seq<char>,
    total: Option<usize>,
) -> TaskView {
    TaskView { id, label, description, current: 0, total, status: TaskStatus::Pending }
}

/// The tasks of a start: those for which there is something to do, in a fixed
/// order.
pub open spec fn planned_tasks(stale: usize, gps: usize, cross_os: bool) -> Seq<TaskView> {
    let first = if stale > 0 {
        seq![
            waiting(
                TASK_CLEANUP@,
                "Recovering interrupted renders"@,
                "Clearing partial timelapse files left over from a previous run."@,
                Some(stale),
            ),
        ]
    } else {
        Seq::empty()
    };
    let second = if gps > 0 {
        first.push(
            waiting(
                TASK_GPS_BACKFILL@,
                "Backing up GPS data"@,
                "Saving GPS tracks for trips that were timelapsed before this feature shipped, so map and speed data stay available if originals are deleted."@,
                Some(gps),
            ),
        )
    } else {
        first
    };
    if cross_os {
        second.push(
            waiting(
                TASK_CROSS_OS_REBUILD@,
                "Adapting archive to this OS"@,
                "Rewriting stored paths so segments resolve correctly on this platform. Runs once per archive."@,
                None,
            ),
        )
    } else {
        second
    }
}

fn push_task(
    v: &mut Vec<StartupTask>,
    id: &str,
    label: &str,
    description: &str,
    total: Option<usize>,
)
    ensures
        task_views(final(v)@) == task_views(old(v)@).push(
            waiting(id@, label@, description@, total),
        ),
{
    let ghost before = v@;
    let t = StartupTask {
        id: owned(id),
        label: owned(label),
        description: owned(description),
        current: 0,
        total,
        status: TaskStatus::Pending,
    };
    let ghost tv = t@;
    v.push(t);
    proof {
        assert(task_views(v@) == task_views(before).push(tv));
    }
}

/// The tasks of a start, given the number of interrupted jobs, the number of
/// trips whose positions are to be read, and whether the archive is new to this
/// system.
pub fn plan_tasks(stale: usize, gps_count: usize, needs_cross_os: bool) -> (r: Vec<StartupTask>)
    ensures
        task_views(r@) == planned_tasks(stale, gps_count, needs_cross_os),
{
    let mut tasks: Vec<StartupTask> = Vec::new();
    proof {
        assert(task_views(tasks@) == Seq::<TaskView>::empty());
    }
    if stale > 0 {
        push_task(
            &mut tasks,
            TASK_CLEANUP,
            "Recovering interrupted renders",
            "Clearing partial timelapse files left over from a previous run.",
            Some(stale),
        );
        proof {
            assert(task_views(tasks@) == planned_tasks(stale, 0, false));
        }
    }
    if gps_count > 0 {
        push_task(
            &mut tasks,
            TASK_GPS_BACKFILL,
            "Backing up GPS data",
            "Saving GPS tracks for trips that were timelapsed before this feature shipped, so map and speed data stay available if originals are deleted.",
            Some(gps_count),
        );
    }
    if needs_cross_os {
        push_task(
            &mut tasks,
            TASK_CROSS_OS_REBUILD,
            "Adapting archive to this OS",
            "Rewriting stored paths so segments resolve correctly on this platform. Runs once per archive.",
            None,
        );
    }
    tasks
}

/// The place of the first task with the identifier.
pub open spec fn task_at(tasks: Seq<TaskView>, id: Seq<char>) -> int {
    crate::db::table::first_index(tasks, |t: TaskView| t.id == id, 0)
}

/// A change of a task.
#[derive(Debug, Clone, Copy, PartialEq, Eq, Structural)]
pub enum TaskChange {
    Status(TaskStatus),
    Total(usize),
    Current(usize),
}

/// A task after a change.
pub open spec fn changed(t: TaskView, c: TaskChange) -> TaskView {
    match c {
        TaskChange::Status(s) => TaskView { status: s, ..t },
        TaskChange::Total(n) => TaskView { total: Some(n), ..t },
        TaskChange::Current(n) => TaskView { current: n, ..t },
    }
}

impl StartupSnapshot {
    /// The tasks are over, or there were none.
    pub fn mark_no_work(&mut self)
        ensures
            task_views(final(self).tasks@) == Seq::<TaskView>::empty(),
            final(self).done,
    {
        self.tasks = Vec::new();
        self.done = true;
        proof {
            assert(task_views(self.tasks@) == Seq::<TaskView>::empty());
        }
    }

    /// The tasks begin. Tells whether there is anything to do.
    pub fn begin(&mut self, tasks: Vec<StartupTask>) -> (r: bool)
        ensures
            r == (tasks.len() > 0),
            task_views(final(self).tasks@) == task_views(tasks@),
            final(self).done == !r,
    {
        let some = tasks.len() > 0;
        self.tasks = tasks;
        self.done = !some;
        some
    }

    /// Changes the first task with the identifier; the others stay as they are.
    pub fn with_task(&mut self, id: &str, c: TaskChange)
        ensures
            final(self).done == old(self).done,
            ({
                let tasks = task_views(old(self).tasks@);
                let at = task_at(tasks, id@);
                task_views(final(self).tasks@) == if at < tasks.len() {
                    tasks.update(at, changed(tasks[at], c))
                } else {
                    tasks
                }
            }),
    {
        let ghost tv = task_views(self.tasks@);
        let ghost p = |t: TaskView| t.id == id@;
        proof {
            crate::db::table::lemma_first_index(tv, p, 0);
        }
        let mut i: usize = 0;
        while i < self.tasks.len() && !same_str(self.tasks[i].id.as_str(), id)
            invariant
                i <= self.tasks.len(),
                *self == *old(self),
                tv == task_views(self.tasks@),
                p == (|t: TaskView| t.id == id@),
                crate::db::table::first_index(tv, p, 0) == crate::db::table::first_index(
                    tv,
                    p,
                    i as int,
                ),
            decreases self.tasks.len() - i,
        {
            proof {
                assert(tv[i as int] == self.tasks@[i as int]@);
            }
            i += 1;
        }
        if i < self.tasks.len() {
            proof {
                assert(tv[i as int] == self.tasks@[i as int]@);
                assert(p(tv[i as int]));
            }
            let mut t = self.tasks[i].clone();
            match c {
                TaskChange::Status(s) => {
                    t.status = s;
                },
                TaskChange::Total(n) => {
                    t.total = Some(n);
                },
                TaskChange::Current(n) => {
                    t.current = n;
                },
            }
            self.tasks.set(i, t);
            proof {
                assert(task_views(self.tasks@) == tv.update(i as int, changed(tv[i as int], c)));
            }
        }
    }

    /// The tasks are over.
    pub fn finish(&mut self)
        ensures
            final(self).done,
            final(self).tasks == old(self).tasks,
    {
        self.done = true;
    }
}

/// A task of the start by its identifier.
#[derive(Debug, Clone, Copy, PartialEq, Eq, Structural)]
pub enum TaskKind {
    Cleanup,
    GpsBackfill,
    CrossOsRebuild,
}

/// The task that an identifier stands for.
pub fn task_kind(id: &str) -> (r: Option<TaskKind>)
    ensures
        match r {
            Some(TaskKind::Cleanup) => id@ == TASK_CLEANUP@,
            Some(TaskKind::GpsBackfill) => id@ == TASK_GPS_BACKFILL@,
            Some(TaskKind::CrossOsRebuild) => id@ == TASK_CROSS_OS_REBUILD@,
            None => id@ != TASK_CLEANUP@ && id@ != TASK_GPS_BACKFILL@ && id@
                != TASK_CROSS_OS_REBUILD@,
        },
{
    if same_str(id, TASK_CLEANUP) {
        Some(TaskKind::Cleanup)
    } else if same_str(id, TASK_GPS_BACKFILL) {
        Some(TaskKind::GpsBackfill)
    } else if same_str(id, TASK_CROSS_OS_REBUILD) {
        Some(TaskKind::CrossOsRebuild)
    } else {
        None
    }
}

/// The status of a task that ended.
pub fn ended(ok: bool) -> (r: TaskChange)
    ensures
        r == TaskChange::Status(
            if ok {
                TaskStatus::Done
            } else {
                TaskStatus::Failed
            },
        ),
{
    if ok {
        TaskChange::Status(TaskStatus::Done)
    } else {
        TaskChange::Status(TaskStatus::Failed)
    }
}

/// What becomes of the archive that was open last.
#[derive(Debug)]
pub enum Reopen {
    /// There was none.
    Nothing,
    /// It is there and is opened.
    Open(String),
    /// It is not there.
    Offline(String),
}

/// What becomes of the archive that was open last, given whether its directory
/// is there.
pub fn archive_to_reopen(s: &AppSettings, is_dir: bool) -> (r: Reopen)
    ensures
        match s.last_archive {
            None => r is Nothing,
            Some(p) => if is_dir {
                r matches Reopen::Open(q) && q == p
            } else {
                r matches Reopen::Offline(q) && q == p
            },
        },
{
    match &s.last_archive {
        None => Reopen::Nothing,
        Some(p) => if is_dir {
            Reopen::Open(p.clone())
        } else {
            Reopen::Offline(p.clone())
        },
    }
}

/// What is said where the program has no place for its data.
pub fn data_dir_message(reason: &str) -> (r: String)
    ensures
        r@ == "Trip Viewer can't determine its data directory:\n\n"@ + reason@
            + "\n\nPlease report this at https://github.com/chrisl8/trip-viewer/issues."@,
{
    let mut s = owned("Trip Viewer can't determine its data directory:\n\n");
    s.append(reason);
    s.append("\n\nPlease report this at https://github.com/chrisl8/trip-viewer/issues.");
    s
}

/// The entry of the crash log. A thread without a name, a place that is not
/// known and a message that is no text are said so.
pub open spec fn crash_entry(
    timestamp: Seq<char>,
    thread: Option<Seq<char>>,
    location: Option<Seq<char>>,
    message: Option<Seq<char>>,
    backtrace: Seq<char>,
) -> Seq<char> {
    "----\n["@ + timestamp + "] thread '"@ + or_text(thread, "<unnamed>"@) + "' panicked at "@
        + or_text(location, "<unknown location>"@) + ":\n"@ + or_text(
        message,
        "<non-string panic payload>"@,
    ) + "\n\nBacktrace:\n"@ + backtrace + "\n"@
}

/// The text where there is one, else the other.
pub open spec fn or_text(o: Option<Seq<char>>, other: Seq<char>) -> Seq<char> {
    match o {
        Some(s) => s,
        None => other,
    }
}

fn append_or(s: &mut String, o: &Option<String>, other: &str)
    ensures
        final(s)@ == old(s)@ + or_text(crate::text::opt_view(*o), other@),
{
    match o {
        Some(t) => s.append(t.as_str()),
        None => s.append(other),
    }
}

/// The entry of the crash log.
pub fn crash_log_entry(
    timestamp: &str,
    thread: &Option<String>,
    location: &Option<String>,
    message: &Option<String>,
    backtrace: &str,
) -> (r: String)
    ensures
        r@ == crash_entry(
            timestamp@,
            crate::text::opt_view(*thread),
            crate::text::opt_view(*location),
            crate::text::opt_view(*message),
            backtrace@,
        ),
{
    let mut s = owned("----\n[");
    s.append(timestamp);
    s.append("] thread '");
    append_or(&mut s, thread, "<unnamed>");
    s.append("' panicked at ");
    append_or(&mut s, location, "<unknown location>");
    s.append(":\n");
    append_or(&mut s, message, "<non-string panic payload>");
    s.append("\n\nBacktrace:\n");
    s.append(backtrace);
    s.append("\n");
    s
}

} // verus!
