//! The watchdog engine: a two-state machine (idle or running) that, on
//! each tick, walks the enabled targets in list order, logs whether each
//! is running, and hands back the ones that must be relaunched. Launch
//! outcomes are reported back and logged; they never stop the watchdog.
//! All events land in a bounded log that drops its oldest entry first.
use vstd::prelude::*;

use crate::config::{clone_target, tview, TargetModel, WatchConfig, WatchTarget};
use crate::inspect::{is_path_running, snap_has_path, snapshot_process_paths};
use crate::text::{lit, lit_bytes, push_bytes};

verus! {

/// Entries the event log keeps at most.
pub const EVENT_LOG_CAP: usize = 200;

/// One timestamped, human-readable event.
pub struct LogEntry {
    pub timestamp: Vec<u8>,
    pub message: Vec<u8>,
}

/// Mathematical image of a log entry.
#[verifier::ext_equal]
pub ghost struct LogEntryModel {
    pub timestamp: Seq<u8>,
    pub message: Seq<u8>,
}

impl View for LogEntry {
    type V = LogEntryModel;

    open spec fn view(&self) -> LogEntryModel {
        LogEntryModel { timestamp: self.timestamp@, message: self.message@ }
    }
}

/// Appending to a bounded log: the oldest entry leaves when the log is
/// full.
pub open spec fn log_push(es: Seq<LogEntryModel>, e: LogEntryModel) -> Seq<LogEntryModel> {
    if es.len() < EVENT_LOG_CAP {
        es.push(e)
    } else {
        es.skip(1).push(e)
    }
}

/// A batch of messages appended in order under one timestamp.
pub open spec fn log_push_all(
    es: Seq<LogEntryModel>,
    now: Seq<u8>,
    msgs: Seq<Seq<u8>>,
) -> Seq<LogEntryModel>
    decreases msgs.len(),
{
    if msgs.len() == 0 {
        es
    } else {
        log_push(
            log_push_all(es, now, msgs.drop_last()),
            LogEntryModel { timestamp: now, message: msgs.last() },
        )
    }
}

/// Append-only, ring-bounded event log.
pub struct EventLog {
    pub entries: Vec<LogEntry>,
}

impl View for EventLog {
    type V = Seq<LogEntryModel>;

    open spec fn view(&self) -> Seq<LogEntryModel> {
        Seq::new(self.entries@.len(), |i: int| self.entries@[i]@)
    }
}

pub open spec fn log_wf(es: Seq<LogEntryModel>) -> bool {
    es.len() <= EVENT_LOG_CAP
}

impl EventLog {
    pub fn new() -> (log: EventLog)
        ensures
            log@ == Seq::<LogEntryModel>::empty(),
            log_wf(log@),
    {
        let log = EventLog { entries: Vec::new() };
        proof {
            assert(log@ =~= Seq::<LogEntryModel>::empty());
        }
        log
    }

    /// Appends one entry, dropping the oldest when full.
    pub fn append(&mut self, timestamp: Vec<u8>, message: Vec<u8>)
        requires
            log_wf(old(self)@),
        ensures
            final(self)@ == log_push(
                old(self)@,
                LogEntryModel { timestamp: timestamp@, message: message@ },
            ),
            log_wf(final(self)@),
    {
        let ghost prev = self@;
        if self.entries.len() >= EVENT_LOG_CAP {
            self.entries.remove(0);
            proof {
                assert(self@ =~= prev.skip(1));
            }
        }
        let ghost mid = self@;
        self.entries.push(LogEntry { timestamp: timestamp, message: message });
        proof {
            assert(self@ =~= mid.push(
                LogEntryModel { timestamp: timestamp@, message: message@ },
            ));
        }
    }
}

// ---------- what a tick says and does ----------

pub open spec fn msg_running(name: Seq<u8>) -> Seq<u8> {
    name + lit(" is running")
}

pub open spec fn msg_not_running(name: Seq<u8>) -> Seq<u8> {
    name + lit(" is not running")
}

pub open spec fn msg_started(name: Seq<u8>) -> Seq<u8> {
    name + lit(" started")
}

pub open spec fn msg_start_failed(name: Seq<u8>) -> Seq<u8> {
    name + lit(" failed to start")
}

/// The messages one tick emits: for each enabled target, in list order,
/// whether it runs; disabled targets are passed over in silence.
pub open spec fn tick_messages(ts: Seq<TargetModel>, snap: Seq<Seq<u8>>) -> Seq<Seq<u8>>
    decreases ts.len(),
{
    if ts.len() == 0 {
        Seq::empty()
    } else {
        let t = ts.last();
        let head = if !t.enabled {
            Seq::<Seq<u8>>::empty()
        } else if snap_has_path(snap, t.path) {
            seq![msg_running(t.name)]
        } else {
            seq![msg_not_running(t.name)]
        };
        tick_messages(ts.drop_last(), snap) + head
    }
}

/// The targets one tick finds missing: enabled and not in the snapshot,
/// in list order.
pub open spec fn tick_missing(ts: Seq<TargetModel>, snap: Seq<Seq<u8>>) -> Seq<TargetModel>
    decreases ts.len(),
{
    if ts.len() == 0 {
        Seq::empty()
    } else {
        let t = ts.last();
        let head = if t.enabled && !snap_has_path(snap, t.path) {
            seq![t]
        } else {
            Seq::<TargetModel>::empty()
        };
        tick_missing(ts.drop_last(), snap) + head
    }
}

/// The watchdog: idle or running, plus its event log.
pub struct WatchdogEngine {
    pub running: bool,
    pub log: EventLog,
}

impl WatchdogEngine {
    /// A fresh, idle engine with an empty log.
    pub fn new() -> (e: WatchdogEngine)
        ensures
            !e.running,
            e.log@ == Seq::<LogEntryModel>::empty(),
            log_wf(e.log@),
    {
        WatchdogEngine { running: false, log: EventLog::new() }
    }

    /// Starts monitoring. Ticks are driven from outside while `running`.
    pub fn start(&mut self)
        ensures
            final(self).running,
            final(self).log@ == old(self).log@,
    {
        self.running = true;
    }

    /// Stops monitoring; takes effect before the next tick, never within
    /// one.
    pub fn stop(&mut self)
        ensures
            !final(self).running,
            final(self).log@ == old(self).log@,
    {
        self.running = false;
    }

    /// One tick over the given snapshot: logs one line per enabled target
    /// under the given timestamp and returns the targets to relaunch, in
    /// list order. Disabled targets are skipped without a query or an
    /// event.
    pub fn tick(&mut self, cfg: &WatchConfig, snap: &Vec<Vec<u8>>, now: &Vec<u8>) -> (missing:
        Vec<WatchTarget>)
        requires
            log_wf(old(self).log@),
        ensures
            tview(missing@) == tick_missing(cfg@.targets, snap.deep_view()),
            final(self).log@ == log_push_all(
                old(self).log@,
                now@,
                tick_messages(cfg@.targets, snap.deep_view()),
            ),
            final(self).running == old(self).running,
            log_wf(final(self).log@),
    {
        let ghost ts = cfg@.targets;
        let ghost sv = snap.deep_view();
        let ghost log0 = self.log@;
        let mut missing: Vec<WatchTarget> = Vec::new();
        let n = cfg.targets.len();
        let mut i: usize = 0;
        proof {
            assert(ts.take(0) =~= Seq::<TargetModel>::empty());
            assert(tview(missing@) =~= tick_missing(ts.take(0), sv));
        }
        while i < n
            invariant
                n == cfg.targets@.len(),
                i <= n,
                ts == cfg@.targets,
                sv == snap.deep_view(),
                log_wf(self.log@),
                self.log@ == log_push_all(log0, now@, tick_messages(ts.take(i as int), sv)),
                tview(missing@) == tick_missing(ts.take(i as int), sv),
                self.running == old(self).running,
            decreases n - i,
        {
            let ghost tsi = ts.take(i as int + 1);
            proof {
                assert(tsi.drop_last() =~= ts.take(i as int));
                assert(tsi.last() == ts[i as int]);
            }
            let t = &cfg.targets[i];
            proof {
                assert(t@ == ts[i as int]);
            }
            if t.enabled {
                let up = is_path_running(snap, t.path.as_slice());
                let mut msg = crate::config::clone_bytes(&t.name);
                if up {
                    proof {
                        reveal_strlit(" is running");
                    }
                    let tail = lit_bytes(" is running");
                    push_bytes(&mut msg, tail.as_slice());
                    proof {
                        assert(msg@ == msg_running(ts[i as int].name));
                        assert(tick_messages(tsi, sv) =~= tick_messages(ts.take(i as int), sv)
                            + seq![msg_running(ts[i as int].name)]);
                        assert(tick_messages(tsi, sv).drop_last() =~= tick_messages(
                            ts.take(i as int),
                            sv,
                        ));
                        assert(tick_missing(tsi, sv) =~= tick_missing(ts.take(i as int), sv));
                    }
                    self.log.append(crate::config::clone_bytes(now), msg);
                } else {
                    proof {
                        reveal_strlit(" is not running");
                    }
                    let tail = lit_bytes(" is not running");
                    push_bytes(&mut msg, tail.as_slice());
                    proof {
                        assert(msg@ == msg_not_running(ts[i as int].name));
                        assert(tick_messages(tsi, sv) =~= tick_messages(ts.take(i as int), sv)
                            + seq![msg_not_running(ts[i as int].name)]);
                        assert(tick_messages(tsi, sv).drop_last() =~= tick_messages(
                            ts.take(i as int),
                            sv,
                        ));
                    }
                    self.log.append(crate::config::clone_bytes(now), msg);
                    let ghost mprev = tview(missing@);
                    missing.push(clone_target(t));
                    proof {
                        assert(tview(missing@) =~= mprev.push(ts[i as int]));
                        assert(tick_missing(tsi, sv) =~= tick_missing(ts.take(i as int), sv)
                            + seq![ts[i as int]]);
                        assert(mprev.push(ts[i as int]) =~= mprev + seq![ts[i as int]]);
                    }
                }
            } else {
                proof {
                    assert(tick_messages(tsi, sv) =~= tick_messages(ts.take(i as int), sv));
                    assert(tick_missing(tsi, sv) =~= tick_missing(ts.take(i as int), sv));
                }
            }
            i = i + 1;
        }
        proof {
            assert(ts.take(n as int) =~= ts);
        }
        missing
    }

    /// Logs the outcome of one relaunch attempt.
    pub fn note_launch_result(&mut self, name: &Vec<u8>, ok: bool, now: &Vec<u8>)
        requires
            log_wf(old(self).log@),
        ensures
            final(self).log@ == log_push(
                old(self).log@,
                LogEntryModel {
                    timestamp: now@,
                    message: if ok {
                        msg_started(name@)
                    } else {
                        msg_start_failed(name@)
                    },
                },
            ),
            final(self).running == old(self).running,
            log_wf(final(self).log@),
    {
        let mut msg = crate::config::clone_bytes(name);
        if ok {
            proof {
                reveal_strlit(" started");
            }
            let tail = lit_bytes(" started");
            push_bytes(&mut msg, tail.as_slice());
        } else {
            proof {
                reveal_strlit(" failed to start");
            }
            let tail = lit_bytes(" failed to start");
            push_bytes(&mut msg, tail.as_slice());
        }
        self.log.append(crate::config::clone_bytes(now), msg);
    }

    /// One full tick against the live process table, stamped with the
    /// wall clock: whatever snapshot and moment the machine presents, the
    /// log grows by that tick's messages and the returned targets are the
    /// missing ones of that snapshot.
    pub fn run_tick(&mut self, cfg: &WatchConfig) -> (missing: Vec<WatchTarget>)
        requires
            log_wf(old(self).log@),
        ensures
            exists|snap: Seq<Seq<u8>>, now: Seq<u8>|
                tview(missing@) == tick_missing(cfg@.targets, snap) && final(self).log@
                    == log_push_all(old(self).log@, now, tick_messages(cfg@.targets, snap)),
            final(self).running == old(self).running,
            log_wf(final(self).log@),
    {
        let snap = snapshot_process_paths();
        let now = crate::clock::now_stamp();
        let missing = self.tick(cfg, &snap, &now);
        proof {
            let snapv = snap.deep_view();
            let nowv = now@;
            assert(tview(missing@) == tick_missing(cfg@.targets, snapv) && self.log@
                == log_push_all(old(self).log@, nowv, tick_messages(cfg@.targets, snapv)));
        }
        missing
    }
}

} // verus!
