//! The listener's decisions: how many workers to start, which worker gets
//! the next request, and which part of a request it forwards.
use vstd::prelude::*;
use crate::config::Settings;
use crate::numbers::{decimal, law_decimal_parses_back, parse_u16, parse_unsigned};
use crate::text::{chars_of, find_char, find_or_len};

verus! {

broadcast use vstd::string::group_string_axioms;

/// The worker after `current` among `count` workers, in turn.
pub open spec fn next_worker(current: int, count: int) -> int {
    if current + 1 == count {
        0
    } else {
        current + 1
    }
}

/// The worker reached from `current` after `k` requests.
pub open spec fn worker_after(current: int, count: int, k: nat) -> int
    decreases k,
{
    if k == 0 {
        current
    } else {
        next_worker(worker_after(current, count, (k - 1) as nat), count)
    }
}

/// Requests go to the workers in turn: after `k` requests the worker is
/// `(current + k) mod count`, so every `count` requests each worker gets one.
pub proof fn law_round_robin(current: int, count: int, k: nat)
    requires
        0 <= current < count,
    ensures
        worker_after(current, count, k) == (current + k) % count,
        0 <= worker_after(current, count, k) < count,
    decreases k,
{
    if k == 0 {
        vstd::arithmetic::div_mod::lemma_small_mod(current as nat, count as nat);
    } else {
        law_round_robin(current, count, (k - 1) as nat);
        let w = worker_after(current, count, (k - 1) as nat);
        assert(w == (current + k - 1) % count);
        assert((current + k) % count == if w + 1 == count { 0 } else { w + 1 }) by (nonlinear_arith)
            requires
                w == (current + k - 1) % count,
                0 <= w < count,
                count > 0,
                current + k - 1 >= 0,
        {
        }
    }
}

/// The line that is forwarded to a worker: the request up to its first `'\n'`.
pub open spec fn request_line(request: Seq<char>) -> Seq<char> {
    request.take(find_or_len(request, seq!['\n']))
}

/// Why the listener cannot start its workers.
#[derive(PartialEq, Eq, Structural, Debug, Clone, Copy)]
pub enum PlanError {
    /// The machine reported no processor at all.
    NoCpus,
    /// `max_worker_count` is missing from the settings.
    MissingMaxWorkerCount,
    /// `max_worker_count` is not a number from 0 to 65535.
    BadMaxWorkerCount,
}

/// How many workers to start.
#[derive(PartialEq, Eq, Structural, Debug, Clone, Copy)]
pub enum WorkerPlan {
    /// Fewer than two processors are left besides the listener's own; the
    /// count of all processors (wrapped to 16 bits) is reported.
    TooFewCores(u16),
    /// Start this many workers.
    Start(u16),
}

/// The plan for `cpus` processors: one processor is kept for the listener
/// (its count taken modulo 2^16); with fewer than two left no worker starts,
/// otherwise `max_worker_count`, at most one worker per processor left.
pub open spec fn worker_plan(cpus: int, max_setting: Option<Seq<char>>) -> Result<WorkerPlan, PlanError> {
    if cpus == 0 {
        Err(PlanError::NoCpus)
    } else {
        let left = (cpus - 1) % 0x10000;
        if left < 2 {
            Ok(WorkerPlan::TooFewCores((left + 1) as u16))
        } else {
            match max_setting {
                None => Err(PlanError::MissingMaxWorkerCount),
                Some(text) => match parse_unsigned(text, 0xffff) {
                    None => Err(PlanError::BadMaxWorkerCount),
                    Some(m) => Ok(WorkerPlan::Start((if m < left { m as int } else { left }) as u16)),
                },
            }
        }
    }
}

/// One processor is kept for the listener: a plan that starts workers starts
/// no more than the processors left besides the listener's own and no more
/// than `max_worker_count`; when the processor count fits in 16 bits and at
/// least two processors are left, it starts exactly the smaller of the two
/// (and needs the setting). With one or two processors no worker starts.
pub proof fn law_workers_fit_processors(cpus: int, text: Seq<char>, m: nat)
    requires
        cpus >= 1,
        m <= 0xffff,
    ensures
        match worker_plan(cpus, Some(text)) {
            Ok(WorkerPlan::Start(n)) => {
                &&& n + 1 <= cpus
                &&& n <= (cpus - 1) % 0x10000
                &&& parse_unsigned(text, 0xffff) is Some
                &&& n <= parse_unsigned(text, 0xffff)->0
            },
            _ => true,
        },
        3 <= cpus <= 0x10000 ==> worker_plan(cpus, Some(decimal(m))) == Ok::<WorkerPlan, PlanError>(
            WorkerPlan::Start((if m <= cpus - 1 {
                m as int
            } else {
                cpus - 1
            }) as u16),
        ),
        cpus == 1 || cpus == 2 ==> worker_plan(cpus, Some(text)) == Ok::<WorkerPlan, PlanError>(
            WorkerPlan::TooFewCores(cpus as u16),
        ),
        3 <= cpus <= 0x10000 ==> worker_plan(cpus, None) == Err::<WorkerPlan, PlanError>(
            PlanError::MissingMaxWorkerCount,
        ),
{
    law_decimal_parses_back(m, 0xffff);
    assert((cpus - 1) % 0x10000 <= cpus - 1);
    if 3 <= cpus <= 0x10000 {
        assert((cpus - 1) % 0x10000 == cpus - 1);
    }
}

/// The spec value of an optional setting.
pub open spec fn opt_view(s: Option<&String>) -> Option<Seq<char>> {
    match s {
        Some(v) => Some(v@),
        None => None,
    }
}

/// `num_cpus::get`: the number of processors available to the process, which
/// the crate reads from the cgroup quota, the affinity mask or `sysconf`. Its
/// documentation promises at least one; nothing else is stated, since the
/// count depends on the machine.
#[verifier::external_body]
fn available_cpus() -> (r: usize)
    ensures
        r >= 1,
{
    num_cpus::get()
}

/// The worker plan for `cpus` processors and the `max_worker_count` setting.
pub fn plan_worker_count(cpus: usize, max_setting: Option<&String>) -> (r: Result<WorkerPlan, PlanError>)
    ensures
        r == worker_plan(cpus as int, opt_view(max_setting)),
{
    if cpus == 0 {
        return Err(PlanError::NoCpus);
    }
    let left: u16 = ((cpus - 1) % 0x10000) as u16;
    if left < 2 {
        return Ok(WorkerPlan::TooFewCores(left + 1));
    }
    match max_setting {
        None => Err(PlanError::MissingMaxWorkerCount),
        Some(text) => match parse_u16(text.as_str()) {
            None => Err(PlanError::BadMaxWorkerCount),
            Some(m) => Ok(WorkerPlan::Start(if m < left { m } else { left })),
        },
    }
}

/// The listener: the workers started, their sockets, the worker that gets
/// the next request, and the settings.
pub struct Listener {
    pub worker_vec: Vec<i32>,
    pub socket_vec: Vec<i32>,
    pub current_worker: usize,
    pub settings: Settings,
}

impl Listener {
    /// A listener with no workers yet.
    pub fn new(settings: Settings) -> (r: Listener)
        ensures
            r.worker_vec@.len() == 0,
            r.socket_vec@.len() == 0,
            r.current_worker == 0,
            r.settings == settings,
    {
        Listener { worker_vec: Vec::new(), socket_vec: Vec::new(), current_worker: 0, settings }
    }

    /// The worker plan on this machine: the processor count that was read,
    /// and the plan for it.
    pub fn plan_workers(&self) -> (r: (usize, Result<WorkerPlan, PlanError>))
        requires
            self.settings.settings.wf(),
        ensures
            r.0 >= 1,
            r.1 == worker_plan(
                r.0 as int,
                if self.settings.settings.view().contains_key(max_worker_count_key()) {
                    Some(self.settings.settings.view()[max_worker_count_key()])
                } else {
                    None
                },
            ),
    {
        let cpus = available_cpus();
        let key = "max_worker_count";
        proof {
            reveal_strlit("max_worker_count");
        }
        assert(key@ =~= max_worker_count_key());
        let setting = self.settings.get_option(key);
        (cpus, plan_worker_count(cpus, setting))
    }

    /// Takes a request: forwards its first line to the current worker's
    /// socket and passes the turn to the next worker. An empty request is
    /// ignored.
    pub fn handle_client<'a>(&mut self, request: &'a str) -> (r: Option<(i32, &'a str)>)
        requires
            request@.len() > 0 ==> old(self).current_worker < old(self).socket_vec@.len()
                && old(self).current_worker < old(self).worker_vec@.len(),
        ensures
            final(self).socket_vec == old(self).socket_vec,
            final(self).worker_vec == old(self).worker_vec,
            final(self).settings == old(self).settings,
            request@.len() == 0 ==> r is None && final(self).current_worker == old(self).current_worker,
            request@.len() > 0 ==> match r {
                Some((socket, line)) => socket == old(self).socket_vec@[old(self).current_worker as int]
                    && line@ == request_line(request@) && final(self).current_worker == next_worker(
                    old(self).current_worker as int,
                    old(self).socket_vec@.len() as int,
                ),
                None => false,
            },
    {
        let v = chars_of(request);
        if v.len() == 0 {
            return None;
        }
        let offset = find_char(&v, '\n');
        let first = request.substring_char(0, offset);
        assert(request@.len() > 0);
        let len = self.socket_vec.len();
        assert(self.current_worker < len);
        let socket = self.socket_vec[self.current_worker];
        self.current_worker = self.current_worker + 1;
        if self.socket_vec.len() == self.current_worker {
            self.current_worker = 0;
        }
        Some((socket, first))
    }
}

/// The setting that caps the number of workers: `"max_worker_count"`.
pub open spec fn max_worker_count_key() -> Seq<char> {
    seq!['m', 'a', 'x', '_', 'w', 'o', 'r', 'k', 'e', 'r', '_', 'c', 'o', 'u', 'n', 't']
}

} // verus!
