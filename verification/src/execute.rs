use vstd::prelude::*;

use crate::numbers::decimal_text;

verus! {

/// A wait status that reports a stopped child: the low byte is `0x7f`.
pub open spec fn spec_is_stopped(status: i32) -> bool {
    (status as int) % 256 == 0x7f
}

/// The exit status a shell reports for a wait status: the exit code of a
/// child that exited, else 128 plus the signal that ended it.
pub open spec fn spec_status_code(status: i32) -> i32 {
    if (status as int) % 128 == 0 {
        ((status as int) / 256 % 256) as i32
    } else {
        (128 + (status as int) % 128) as i32
    }
}

pub fn is_stopped(status: i32) -> (r: bool)
    ensures
        r == spec_is_stopped(status),
{
    let low = status % 256;
    let low = if low < 0 {
        low + 256
    } else {
        low
    };
    low == 0x7f
}

pub fn status_code(status: i32) -> (r: i32)
    ensures
        r == spec_status_code(status),
{
    let signal = status % 128;
    let signal = if signal < 0 {
        signal + 128
    } else {
        signal
    };
    if signal == 0 {
        let q = if status % 256 < 0 {
            status / 256 - 1
        } else {
            status / 256
        };
        let code = q % 256;
        if code < 0 {
            code + 256
        } else {
            code
        }
    } else {
        128 + signal
    }
}

/// The status of a stopped child: 128 plus the signal that stopped it.
pub open spec fn spec_stop_status(status: i32) -> i32 {
    (128 + (status as int) / 256 % 256) as i32
}

pub fn stop_status(status: i32) -> (r: i32)
    ensures
        r == spec_stop_status(status),
{
    let q = if status % 256 < 0 {
        status / 256 - 1
    } else {
        status / 256
    };
    let code = q % 256;
    128 + if code < 0 {
        code + 256
    } else {
        code
    }
}

/// A pipeline that runs in the background or was stopped.
pub struct Job {
    pub id: usize,
    pub command: String,
    pub pids: Vec<i32>,
    pub pgid: i32,
    pub stopped: bool,
    pub last_pid: i32,
}

/// The shell's jobs, and the ID the next one gets.
pub struct Executor {
    pub jobs: Vec<Job>,
    pub next_job: usize,
    pub shell_pgid: i32,
    pub interactive: bool,
}

pub open spec fn job_ids(jobs: Seq<Job>) -> Seq<usize> {
    Seq::new(jobs.len(), |i: int| jobs[i].id)
}

/// The first index from `i` on that holds `id`.
pub open spec fn first_index(ids: Seq<usize>, id: usize, i: int) -> Option<int>
    decreases ids.len() - i,
{
    if i < 0 || i >= ids.len() {
        None
    } else if ids[i] == id {
        Some(i)
    } else {
        first_index(ids, id, i + 1)
    }
}

/// The job that `fg` or `bg` means: the first with the ID, or the latest.
pub open spec fn spec_select_job(ids: Seq<usize>, id: Option<usize>) -> Option<int> {
    match id {
        None => if ids.len() > 0 {
            Some(ids.len() - 1)
        } else {
            None
        },
        Some(id) => first_index(ids, id, 0),
    }
}

pub fn select_job(jobs: &Vec<Job>, id: Option<usize>) -> (r: Option<usize>)
    ensures
        match spec_select_job(job_ids(jobs@), id) {
            Some(i) => r matches Some(k) && k == i,
            None => r is None,
        },
{
    let ghost ids = job_ids(jobs@);
    match id {
        None => if jobs.len() > 0 {
            Some(jobs.len() - 1)
        } else {
            None
        },
        Some(wanted) => {
            let mut i: usize = 0;
            while i < jobs.len()
                invariant
                    i <= jobs@.len(),
                    ids == job_ids(jobs@),
                    id == Some(wanted),
                    first_index(ids, wanted, 0) == first_index(ids, wanted, i as int),
                decreases jobs@.len() - i,
            {
                assert(ids[i as int] == jobs@[i as int].id);
                if jobs[i].id == wanted {
                    assert(first_index(ids, wanted, i as int) == Some(i as int));
                    assert(id == Some(wanted));
                    assert(spec_select_job(ids, id) == Some(i as int));
                    return Some(i);
                }
                i += 1;
            }
            None
        },
    }
}

impl Executor {
    /// No jobs yet; the first one gets ID 1.
    pub fn with_group(shell_pgid: i32, interactive: bool) -> (r: Executor)
        ensures
            r.jobs@.len() == 0,
            r.next_job == 1,
            ids_in_order(r.jobs@, r.next_job),
            r.shell_pgid == shell_pgid,
            r.interactive == interactive,
    {
        Executor { jobs: Vec::new(), next_job: 1, shell_pgid, interactive }
    }

    /// Records a job and gives back its ID, the next one in turn.
    pub fn add_job(&mut self, command: String, pids: Vec<i32>, pgid: i32, last_pid: i32, stopped: bool) -> (r: usize)
        requires
            old(self).next_job < usize::MAX,
        ensures
            r == old(self).next_job,
            final(self).next_job == old(self).next_job + 1,
            final(self).jobs@.len() == old(self).jobs@.len() + 1,
            final(self).jobs@.take(old(self).jobs@.len() as int) == old(self).jobs@,
            final(self).jobs@.last().id == r,
            final(self).jobs@.last().command@ == command@,
            final(self).jobs@.last().pids@ == pids@,
            final(self).jobs@.last().pgid == pgid,
            final(self).jobs@.last().last_pid == last_pid,
            final(self).jobs@.last().stopped == stopped,
            final(self).shell_pgid == old(self).shell_pgid,
            final(self).interactive == old(self).interactive,
            ids_in_order(old(self).jobs@, old(self).next_job) ==> ids_in_order(
                final(self).jobs@,
                final(self).next_job,
            ),
    {
        let id = self.next_job;
        self.next_job = self.next_job + 1;
        self.jobs.push(Job { id, command, pids, pgid, stopped, last_pid });
        assert(self.jobs@.take(old(self).jobs@.len() as int) =~= old(self).jobs@);
        id
    }
}

/// The line that announces a new job: `[ID] PGID`, with `Stopped` for a stopped one.
pub open spec fn job_announcement(id: usize, pgid: i32, stopped: bool) -> Seq<char> {
    "["@ + decimal_text(id as nat) + "] "@ + (if stopped {
        "Stopped\t"@
    } else {
        ""@
    }) + crate::numbers::signed_text(pgid as int)
}

pub fn announce_job(id: usize, pgid: i32, stopped: bool) -> (r: String)
    ensures
        r@ == job_announcement(id, pgid, stopped),
{
    let mut r = String::from_str("[");
    r.append(crate::numbers::decimal(id as u64).as_str());
    r.append("] ");
    if stopped {
        r.append("Stopped\t");
    } else {
        r.append("");
    }
    r.append(crate::numbers::signed_decimal(pgid as i64).as_str());
    r
}


/// `pids` without `pid`.
pub open spec fn without_pid(pids: Seq<i32>, pid: i32) -> Seq<i32>
    decreases pids.len(),
{
    if pids.len() == 0 {
        Seq::empty()
    } else if pids.last() == pid {
        without_pid(pids.drop_last(), pid)
    } else {
        without_pid(pids.drop_last(), pid).push(pids.last())
    }
}

fn remove_pid(pids: &mut Vec<i32>, pid: i32)
    ensures
        final(pids)@ == without_pid(old(pids)@, pid),
{
    let ghost all = pids@;
    let mut kept: Vec<i32> = Vec::new();
    let mut i: usize = 0;
    while i < pids.len()
        invariant
            i <= pids@.len(),
            pids@ == all,
            kept@ == without_pid(all.take(i as int), pid),
        decreases pids@.len() - i,
    {
        assert(all.take(i + 1).drop_last() =~= all.take(i as int));
        if pids[i] != pid {
            kept.push(pids[i]);
        }
        i += 1;
    }
    assert(all.take(all.len() as int) =~= all);
    *pids = kept;
}

/// The wait status that reports a continued child.
pub const CONTINUED: i32 = 0xffff;

impl Job {
    /// Takes in what `waitpid` reported of one of the job's processes.
    pub fn note_status(&mut self, pid: i32, status: i32)
        ensures
            final(self).id == old(self).id,
            final(self).command == old(self).command,
            final(self).pgid == old(self).pgid,
            final(self).last_pid == old(self).last_pid,
            status == CONTINUED ==> !final(self).stopped && final(self).pids@ == old(self).pids@,
            status != CONTINUED && spec_is_stopped(status) ==> final(self).stopped
                && final(self).pids@ == old(self).pids@,
            status != CONTINUED && !spec_is_stopped(status) ==> final(self).stopped
                == old(self).stopped && final(self).pids@ == without_pid(old(self).pids@, pid),
    {
        if status == CONTINUED {
            self.stopped = false;
        } else if is_stopped(status) {
            self.stopped = true;
        } else {
            remove_pid(&mut self.pids, pid);
        }
    }
}

/// A job's line in `jobs`: `[ID] Stopped` or `Running`, a tab, the command.
pub open spec fn job_line(id: usize, stopped: bool, command: Seq<char>) -> Seq<char> {
    "["@ + decimal_text(id as nat) + "] "@ + (if stopped {
        "Stopped"@
    } else {
        "Running"@
    }) + "\t"@ + command
}

pub fn describe_job(job: &Job) -> (r: String)
    ensures
        r@ == job_line(job.id, job.stopped, job.command@),
{
    let mut r = String::from_str("[");
    r.append(crate::numbers::decimal(job.id as u64).as_str());
    r.append("] ");
    if job.stopped {
        r.append("Stopped");
    } else {
        r.append("Running");
    }
    r.append("\t");
    r.append(job.command.as_str());
    r
}

/// The line for a finished job: `[ID] Done`, a tab, the command.
pub open spec fn done_line(id: usize, command: Seq<char>) -> Seq<char> {
    "["@ + decimal_text(id as nat) + "] Done\t"@ + command
}

pub open spec fn unfinished(jobs: Seq<Job>) -> Seq<Job>
    decreases jobs.len(),
{
    if jobs.len() == 0 {
        Seq::empty()
    } else if jobs.last().pids@.len() == 0 {
        unfinished(jobs.drop_last())
    } else {
        unfinished(jobs.drop_last()).push(jobs.last())
    }
}

pub open spec fn done_lines(jobs: Seq<Job>) -> Seq<Seq<char>>
    decreases jobs.len(),
{
    if jobs.len() == 0 {
        Seq::empty()
    } else if jobs.last().pids@.len() == 0 {
        done_lines(jobs.drop_last()).push(done_line(jobs.last().id, jobs.last().command@))
    } else {
        done_lines(jobs.drop_last())
    }
}

/// Job IDs rise along the table and stay below the next one to be given, so
/// that no two jobs share one.
pub open spec fn ids_in_order(jobs: Seq<Job>, next: usize) -> bool {
    &&& forall|i: int, j: int| 0 <= i < j < jobs.len() ==> #[trigger] jobs[i].id < #[trigger] jobs[j].id
    &&& forall|i: int| 0 <= i < jobs.len() ==> #[trigger] jobs[i].id < next
}

proof fn lemma_unfinished_members(jobs: Seq<Job>)
    ensures
        unfinished(jobs).len() <= jobs.len(),
        forall|k: int|
            0 <= k < unfinished(jobs).len() ==> exists|i: int|
                0 <= i < jobs.len() && #[trigger] unfinished(jobs)[k] == jobs[i],
    decreases jobs.len(),
{
    if jobs.len() > 0 {
        let init = jobs.drop_last();
        lemma_unfinished_members(init);
        assert forall|k: int| 0 <= k < unfinished(jobs).len() implies exists|i: int|
            0 <= i < jobs.len() && #[trigger] unfinished(jobs)[k] == jobs[i] by {
            if k < unfinished(init).len() {
                let i = choose|i: int| 0 <= i < init.len() && unfinished(init)[k] == init[i];
                assert(unfinished(jobs)[k] == jobs[i]);
            } else {
                assert(unfinished(jobs)[k] == jobs[jobs.len() - 1]);
            }
        }
    }
}

proof fn lemma_unfinished_keeps_order(jobs: Seq<Job>, next: usize)
    requires
        ids_in_order(jobs, next),
    ensures
        ids_in_order(unfinished(jobs), next),
    decreases jobs.len(),
{
    if jobs.len() > 0 {
        let init = jobs.drop_last();
        assert(ids_in_order(init, next)) by {
            assert forall|i: int, j: int| 0 <= i < j < init.len() implies #[trigger] init[i].id
                < #[trigger] init[j].id by {
                assert(init[i] == jobs[i] && init[j] == jobs[j]);
            }
            assert forall|i: int| 0 <= i < init.len() implies #[trigger] init[i].id < next by {
                assert(init[i] == jobs[i]);
            }
        }
        lemma_unfinished_keeps_order(init, next);
        lemma_unfinished_members(init);
        let u = unfinished(init);
        if jobs.last().pids@.len() > 0 {
            let w = u.push(jobs.last());
            assert forall|i: int, j: int| 0 <= i < j < w.len() implies #[trigger] w[i].id
                < #[trigger] w[j].id by {
                if j == w.len() - 1 {
                    let m = choose|m: int| 0 <= m < init.len() && u[i] == init[m];
                    assert(w[i] == jobs[m]);
                    assert(w[j] == jobs[jobs.len() - 1]);
                } else {
                    assert(w[i] == u[i] && w[j] == u[j]);
                }
            }
            assert forall|i: int| 0 <= i < w.len() implies #[trigger] w[i].id < next by {
                if i < u.len() {
                    assert(w[i] == u[i]);
                } else {
                    assert(w[i] == jobs[jobs.len() - 1]);
                }
            }
        }
    }
}

proof fn lemma_first_index_at(ids: Seq<usize>, id: usize, k: int, i: int)
    requires
        0 <= k <= i < ids.len(),
        ids[i] == id,
        forall|m: int| k <= m < i ==> ids[m] != id,
    ensures
        first_index(ids, id, k) == Some(i),
    decreases i - k,
{
    if k < i {
        lemma_first_index_at(ids, id, k + 1, i);
    }
}

/// With job IDs in order, `fg %n` and `bg %n` pick the one job whose ID is `n`.
pub proof fn lemma_select_finds_the_job(jobs: Seq<Job>, next: usize, i: int)
    requires
        ids_in_order(jobs, next),
        0 <= i < jobs.len(),
    ensures
        spec_select_job(job_ids(jobs), Some(jobs[i].id)) == Some(i),
{
    let ids = job_ids(jobs);
    assert forall|m: int| 0 <= m < i implies ids[m] != jobs[i].id by {
        assert(jobs[m].id < jobs[i].id);
    }
    lemma_first_index_at(ids, jobs[i].id, 0, i);
}

impl Executor {
    /// Drops the jobs whose processes have all ended, in order, and gives
    /// back a line for each.
    pub fn sweep(&mut self) -> (r: Vec<String>)
        ensures
            final(self).jobs@ == unfinished(old(self).jobs@),
            crate::table::string_views(r@) == done_lines(old(self).jobs@),
            final(self).next_job == old(self).next_job,
            ids_in_order(old(self).jobs@, old(self).next_job) ==> ids_in_order(
                final(self).jobs@,
                final(self).next_job,
            ),
            final(self).shell_pgid == old(self).shell_pgid,
            final(self).interactive == old(self).interactive,
    {
        let mut all: Vec<Job> = Vec::new();
        std::mem::swap(&mut all, &mut self.jobs);
        let ghost jobs = all@;
        assert(jobs.len() == all.len());
        let mut kept: Vec<Job> = Vec::new();
        let mut lines: Vec<String> = Vec::new();
        let mut i: usize = 0;
        assert(jobs.skip(0) =~= jobs);
        while all.len() > 0
            invariant
                i <= jobs.len(),
                jobs.len() <= usize::MAX,
                all@ == jobs.skip(i as int),
                kept@ == unfinished(jobs.take(i as int)),
                crate::table::string_views(lines@) == done_lines(jobs.take(i as int)),
            decreases all@.len(),
        {
            let job = all.remove(0);
            assert(job == jobs[i as int]);
            assert(jobs.take(i + 1).drop_last() =~= jobs.take(i as int));
            assert(all@ =~= jobs.skip(i + 1));
            if job.pids.len() == 0 {
                let ghost before = lines@;
                let mut line = String::from_str("[");
                line.append(crate::numbers::decimal(job.id as u64).as_str());
                line.append("] Done\t");
                line.append(job.command.as_str());
                lines.push(line);
                assert(crate::table::string_views(lines@) =~= crate::table::string_views(before).push(
                    done_line(job.id, job.command@),
                ));
            } else {
                kept.push(job);
            }
            i += 1;
        }
        assert(jobs.take(jobs.len() as int) =~= jobs);
        self.jobs = kept;
        proof {
            if ids_in_order(jobs, self.next_job) {
                lemma_unfinished_keeps_order(jobs, self.next_job);
            }
        }
        lines
    }
}

/// Where waiting for a foreground pipeline stands.
pub struct Wait {
    pub pids: Vec<i32>,
    pub last_pid: i32,
    pub status: i32,
    pub stopped: bool,
}

impl Wait {
    /// Takes in what `waitpid` reported; true when waiting is over.
    pub fn observe(&mut self, pid: i32, status: i32) -> (done: bool)
        ensures
            final(self).last_pid == old(self).last_pid,
            spec_is_stopped(status) ==> done && final(self).stopped && final(self).status
                == spec_stop_status(status) && final(self).pids@ == old(self).pids@,
            !spec_is_stopped(status) ==> {
                &&& final(self).pids@ == without_pid(old(self).pids@, pid)
                &&& final(self).stopped == old(self).stopped
                &&& final(self).status == (if pid == old(self).last_pid {
                    spec_status_code(status)
                } else {
                    old(self).status
                })
                &&& done == (final(self).pids@.len() == 0)
            },
    {
        if is_stopped(status) {
            self.stopped = true;
            self.status = stop_status(status);
            return true;
        }
        remove_pid(&mut self.pids, pid);
        if pid == self.last_pid {
            self.status = status_code(status);
        }
        self.pids.len() == 0
    }

    /// Takes in a failed `waitpid`: an interrupted wait goes on, a missing
    /// child ends it, and any other error ends it with status 1.
    pub fn observe_error(&mut self, errno: i32) -> (done: bool)
        ensures
            final(self).pids@ == old(self).pids@,
            final(self).stopped == old(self).stopped,
            final(self).last_pid == old(self).last_pid,
            errno == 4 ==> !done && final(self).status == old(self).status,
            errno == 10 ==> done && final(self).status == old(self).status,
            errno != 4 && errno != 10 ==> done && final(self).status == 1,
    {
        if errno == 4 {
            false
        } else {
            if errno != 10 {
                self.status = 1;
            }
            true
        }
    }
}

} // verus!
