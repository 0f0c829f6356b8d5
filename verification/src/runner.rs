//! The desktop front end's command runner. Every change goes through a
//! `gta-mo ctl` command; commands run strictly one at a time, in the order
//! they were asked for, so two commands never write the database at once.
//! The window performs what these functions decide: it starts the job that
//! is handed out, shows the toast, and refreshes its view.

use std::collections::VecDeque;
use vstd::prelude::*;
use crate::settings::ToastKind;

verus! {

/// How many log lines the window keeps; older lines are dropped first.
pub const LOG_CAP: usize = 2000;

/// A command line queued for the CLI.
#[derive(Debug, Clone)]
pub struct Job {
    pub args: Vec<String>,
    /// The command launches the game (the window then offers to stop it).
    pub launch: bool,
    /// Text sent to the command's standard input, if any.
    pub stdin: Option<String>,
}

/// A transient message for the user.
#[derive(Debug, Clone)]
pub struct Toast {
    pub kind: ToastKind,
    pub text: String,
}

/// What the window does once a command has finished.
#[derive(Debug)]
pub struct Done {
    pub toast: Option<Toast>,
    /// The next queued command, now running.
    pub next: Option<Job>,
    /// Nothing runs any more: reload the view.
    pub refresh: bool,
    /// The failure to keep in the status bar after the reload.
    pub status: Option<String>,
}

/// The queue of commands and what the window knows of the one running.
#[derive(Debug)]
pub struct Runner {
    pub pending: VecDeque<Job>,
    /// A command is running.
    pub busy: bool,
    /// The running command launched the game.
    pub playing: bool,
    /// The user asked to stop the game.
    pub stopping: bool,
    pub log: Vec<String>,
    /// Generation of the latest conflict scan; older results are stale.
    pub scan_gen: u64,
    /// A conflict scan is under way.
    pub conflicts_pending: bool,
}

/// The last `n` items of `s` (all of them when there are fewer).
pub open spec fn keep_last<A>(s: Seq<A>, n: nat) -> Seq<A> {
    if s.len() > n {
        s.subrange(s.len() - n, s.len() as int)
    } else {
        s
    }
}

/// The text a failure is reported with: the command's own message, or a
/// pointer to the log when it printed none.
pub open spec fn failure_text(msg: Seq<char>) -> Seq<char> {
    if msg.len() == 0 {
        "La operaci\u{f3}n fall\u{f3} (ver Log)"@
    } else {
        msg
    }
}

/// The toast shown when a command finishes: a stop the user asked for, a
/// failure, or the end of a game; nothing for an ordinary success.
pub open spec fn done_toast(stopping: bool, playing: bool, ok: bool, msg: Seq<char>) -> Option<(ToastKind, Seq<char>)> {
    if stopping {
        Some((ToastKind::Info, "Juego detenido"@))
    } else if !ok {
        Some((ToastKind::Error, failure_text(msg)))
    } else if playing {
        Some((ToastKind::Success, "El juego termin\u{f3}"@))
    } else {
        None
    }
}

/// A toast as plain values.
pub open spec fn toast_view(t: Option<Toast>) -> Option<(ToastKind, Seq<char>)> {
    match t {
        Some(t) => Some((t.kind, t.text@)),
        None => None,
    }
}

fn failure_string(msg: &str) -> (s: String)
    ensures
        s@ == failure_text(msg@),
{
    if msg.unicode_len() == 0 {
        "La operaci\u{f3}n fall\u{f3} (ver Log)".to_owned()
    } else {
        msg.to_owned()
    }
}

impl Runner {
    /// At most the running command is marked as a game; nothing waits while
    /// nothing runs; the log is within its cap.
    pub open spec fn wf(&self) -> bool {
        &&& self.playing ==> self.busy
        &&& !self.busy ==> self.pending@.len() == 0
        &&& self.log@.len() <= LOG_CAP
    }

    /// An idle runner with an empty queue and log.
    pub fn new() -> (r: Self)
        ensures
            r.wf(),
            r.pending@.len() == 0,
            !r.busy,
            !r.playing,
            !r.stopping,
            r.log@.len() == 0,
            r.scan_gen == 0,
            !r.conflicts_pending,
    {
        Runner {
            pending: VecDeque::new(),
            busy: false,
            playing: false,
            stopping: false,
            log: Vec::new(),
            scan_gen: 0,
            conflicts_pending: false,
        }
    }

    /// Starts the job at the front of the queue, unless one is running.
    pub fn pump(&mut self) -> (started: Option<Job>)
        ensures
            old(self).busy ==> started is None && final(self).pending@ == old(self).pending@
                && final(self).busy && final(self).playing == old(self).playing,
            !old(self).busy && old(self).pending@.len() > 0 ==> started == Some(old(self).pending@[0])
                && final(self).pending@ == old(self).pending@.drop_first()
                && final(self).busy && final(self).playing == old(self).pending@[0].launch,
            !old(self).busy && old(self).pending@.len() == 0 ==> started is None
                && final(self).pending@ == old(self).pending@ && !final(self).busy && !final(self).playing,
            final(self).stopping == old(self).stopping,
            final(self).log == old(self).log,
            final(self).scan_gen == old(self).scan_gen,
            final(self).conflicts_pending == old(self).conflicts_pending,
    {
        if self.busy {
            return None;
        }
        match self.pending.pop_front() {
            Some(job) => {
                self.busy = true;
                self.playing = job.launch;
                assert(old(self).pending@.subrange(1, old(self).pending@.len() as int) =~= old(self).pending@.drop_first());
                Some(job)
            },
            None => {
                self.playing = false;
                None
            },
        }
    }

    /// Queues `job` and starts it at once when nothing runs: a command never
    /// starts while another one is running, and commands start in the order
    /// they were queued.
    pub fn exec(&mut self, job: Job) -> (started: Option<Job>)
        requires
            old(self).wf(),
        ensures
            final(self).wf(),
            old(self).busy ==> started is None && final(self).pending@ == old(self).pending@.push(job)
                && final(self).busy && final(self).playing == old(self).playing,
            !old(self).busy ==> started == Some(job) && final(self).pending@.len() == 0
                && final(self).busy && final(self).playing == job.launch,
            final(self).stopping == old(self).stopping,
            final(self).log == old(self).log,
            final(self).scan_gen == old(self).scan_gen,
            final(self).conflicts_pending == old(self).conflicts_pending,
    {
        self.pending.push_back(job);
        let started = self.pump();
        proof {
            if !old(self).busy {
                assert(old(self).pending@.push(job).drop_first() =~= Seq::<Job>::empty());
            }
        }
        started
    }

    /// The user pressed the stop button; it is honoured only while a game
    /// runs and its process is known.
    pub fn stop(&mut self, has_pid: bool) -> (t: Option<Toast>)
        requires
            old(self).wf(),
        ensures
            final(self).wf(),
            final(self).stopping == (old(self).stopping || (old(self).playing && has_pid)),
            toast_view(t) == (if old(self).playing && has_pid {
                Some((ToastKind::Info, "Deteniendo el juego\u{2026}"@))
            } else {
                None
            }),
            final(self).pending@ == old(self).pending@,
            final(self).busy == old(self).busy,
            final(self).playing == old(self).playing,
            final(self).log == old(self).log,
            final(self).scan_gen == old(self).scan_gen,
            final(self).conflicts_pending == old(self).conflicts_pending,
    {
        if self.playing && has_pid {
            self.stopping = true;
            Some(Toast { kind: ToastKind::Info, text: "Deteniendo el juego\u{2026}".to_owned() })
        } else {
            None
        }
    }

    /// Adds a line to the log, dropping the oldest lines beyond the cap.
    pub fn log_line(&mut self, line: String)
        ensures
            final(self).log@ == keep_last(old(self).log@.push(line), LOG_CAP as nat),
            final(self).pending@ == old(self).pending@,
            final(self).busy == old(self).busy,
            final(self).playing == old(self).playing,
            final(self).stopping == old(self).stopping,
            final(self).scan_gen == old(self).scan_gen,
            final(self).conflicts_pending == old(self).conflicts_pending,
    {
        self.log.push(line);
        if self.log.len() > LOG_CAP {
            let excess = self.log.len() - LOG_CAP;
            let kept = self.log.split_off(excess);
            self.log = kept;
        }
    }

    /// Starts a new conflict scan; `has_dir` tells whether the mods folder is
    /// known. Returns the scan's generation when it can run.
    pub fn start_scan(&mut self, has_dir: bool) -> (gen: Option<u64>)
        requires
            old(self).scan_gen < u64::MAX,
        ensures
            final(self).scan_gen == old(self).scan_gen + 1,
            gen == (if has_dir { Some(final(self).scan_gen) } else { None }),
            final(self).conflicts_pending == has_dir,
            final(self).pending@ == old(self).pending@,
            final(self).busy == old(self).busy,
            final(self).playing == old(self).playing,
            final(self).stopping == old(self).stopping,
            final(self).log == old(self).log,
    {
        self.scan_gen = self.scan_gen + 1;
        self.conflicts_pending = true;
        if has_dir {
            Some(self.scan_gen)
        } else {
            self.conflicts_pending = false;
            None
        }
    }

    /// A conflict scan reported: its results are taken only when it is the
    /// latest one started.
    pub fn scan_done(&mut self, gen: u64) -> (fresh: bool)
        ensures
            fresh == (gen == old(self).scan_gen),
            final(self).conflicts_pending == (if fresh { false } else { old(self).conflicts_pending }),
            final(self).scan_gen == old(self).scan_gen,
            final(self).pending@ == old(self).pending@,
            final(self).busy == old(self).busy,
            final(self).playing == old(self).playing,
            final(self).stopping == old(self).stopping,
            final(self).log == old(self).log,
    {
        if gen == self.scan_gen {
            self.conflicts_pending = false;
            true
        } else {
            false
        }
    }

    /// The running command finished. A failure (other than a stop the user
    /// asked for) drops the commands still queued, since the database may
    /// be in an unknown state; otherwise the next queued command starts. The
    /// view is reloaded once nothing runs, and a failure stays in the status
    /// bar.
    pub fn command_done(&mut self, ok: bool, msg: &str) -> (d: Done)
        requires
            old(self).wf(),
        ensures
            final(self).wf(),
            toast_view(d.toast) == done_toast(old(self).stopping, old(self).playing, ok, msg@),
            !old(self).stopping && !ok ==> d.next is None && final(self).pending@.len() == 0,
            old(self).stopping || ok ==> (if old(self).pending@.len() > 0 {
                d.next == Some(old(self).pending@[0]) && final(self).pending@ == old(self).pending@.drop_first()
            } else {
                d.next is None && final(self).pending@.len() == 0
            }),
            final(self).busy == d.next is Some,
            final(self).playing == (match d.next { Some(j) => j.launch, None => false }),
            !final(self).stopping,
            d.refresh == d.next is None,
            match d.status {
                Some(s) => d.next is None && !ok && s@ == failure_text(msg@),
                None => d.next is Some || ok,
            },
            final(self).log == old(self).log,
            final(self).scan_gen == old(self).scan_gen,
            final(self).conflicts_pending == old(self).conflicts_pending,
    {
        let launched = self.playing;
        let was_stopping = self.stopping;
        self.busy = false;
        self.playing = false;
        self.stopping = false;
        let toast = if was_stopping {
            Some(Toast { kind: ToastKind::Info, text: "Juego detenido".to_owned() })
        } else if !ok {
            self.pending.clear();
            Some(Toast { kind: ToastKind::Error, text: failure_string(msg) })
        } else if launched {
            Some(Toast { kind: ToastKind::Success, text: "El juego termin\u{f3}".to_owned() })
        } else {
            None
        };
        let next = self.pump();
        let refresh = !self.busy;
        let status = if refresh && !ok { Some(failure_string(msg)) } else { None };
        Done { toast, next, refresh, status }
    }
}

} // verus!
