use vstd::prelude::*;

use crate::scan::line_port_update;
use crate::supervisor::{
    spec_ingest, spec_on_poll_cycle, spec_probe_accepts, spec_restart_reset,
    spec_selected_candidate, spec_start_begin, spec_stop_decide, spec_stop_escalate,
    ManagerView, Phase, StartDecision,
};

verus! {

/// Ingesting a whole sequence of output lines, in arrival order.
pub open spec fn spec_ingest_all(v: ManagerView, lines: Seq<Seq<char>>) -> ManagerView
    decreases lines.len(),
{
    if lines.len() == 0 {
        v
    } else {
        spec_ingest_all(spec_ingest(v, lines[0]), lines.drop_first())
    }
}

/// Applying a whole sequence of readiness poll cycles, in order.
pub open spec fn spec_poll_all(v: ManagerView, cycles: Seq<(bool, bool)>) -> ManagerView
    decreases cycles.len(),
{
    if cycles.len() == 0 {
        v
    } else {
        spec_poll_all(spec_on_poll_cycle(v, cycles[0].0, cycles[0].1), cycles.drop_first())
    }
}

/// Law: while a live, ready process exists, beginning `ensure_running` decides
/// "already running" and leaves the state untouched — so two consecutive calls
/// in that state request no spawn at all.
pub proof fn lemma_ensure_running_idempotent(v: ManagerView)
    requires
        v.binary is Some,
        v.has_child,
        v.ready,
    ensures
        ({
            let (v1, d1) = spec_start_begin(v);
            let (v2, d2) = spec_start_begin(v1);
            d1 is AlreadyRunning && d2 is AlreadyRunning && v1 == v && v2 == v
        }),
{
}

/// Law: with a dynamic port, if no ingested output line bears a parseable
/// port, the discovered port stays unset, the supervisor stays in the
/// port-wait stage, and readiness polling never starts — the discovery
/// deadline then surfaces as a port-discovery timeout.
pub proof fn lemma_port_silence_never_polls(v: ManagerView, lines: Seq<Seq<char>>)
    requires
        v.phase is AwaitPort,
        v.port is None,
        !v.ready,
        forall|i: int| 0 <= i < lines.len() ==> line_port_update(#[trigger] lines[i]) is None,
    ensures
        spec_ingest_all(v, lines).port is None,
        spec_ingest_all(v, lines).phase is AwaitPort,
        !spec_ingest_all(v, lines).ready,
    decreases lines.len(),
{
    if lines.len() > 0 {
        let w = spec_ingest(v, lines[0]);
        assert(line_port_update(lines[0]) is None);
        assert(w.port is None && w.phase is AwaitPort && !w.ready);
        assert(forall|i: int|
            0 <= i < lines.drop_first().len() ==> line_port_update(
                #[trigger] lines.drop_first()[i],
            ) is None);
        lemma_port_silence_never_polls(w, lines.drop_first());
    }
}

/// A supervisor not in the polling stage is unaffected by poll cycles.
pub proof fn lemma_poll_all_stable(v: ManagerView, cycles: Seq<(bool, bool)>)
    requires
        !(v.phase is Poll),
    ensures
        spec_poll_all(v, cycles) == v,
    decreases cycles.len(),
{
    if cycles.len() > 0 {
        lemma_poll_all_stable(v, cycles.drop_first());
    }
}

/// Law: starting unready in the polling stage, after any sequence of poll
/// cycles the supervisor is ready exactly when some single cycle had both
/// health endpoints succeed.
pub proof fn lemma_ready_iff_joint_success(v: ManagerView, cycles: Seq<(bool, bool)>)
    requires
        !v.ready,
        v.phase is Poll,
    ensures
        spec_poll_all(v, cycles).ready <==> exists|i: int|
            0 <= i < cycles.len() && (#[trigger] cycles[i]).0 && cycles[i].1,
    decreases cycles.len(),
{
    if cycles.len() > 0 {
        let rest = cycles.drop_first();
        if cycles[0].0 && cycles[0].1 {
            let w = spec_on_poll_cycle(v, cycles[0].0, cycles[0].1);
            assert(w.ready && w.phase is Ready);
            lemma_poll_all_stable(w, rest);
            assert((cycles[0]).0 && cycles[0].1);
        } else {
            assert(spec_on_poll_cycle(v, cycles[0].0, cycles[0].1) == v);
            lemma_ready_iff_joint_success(v, rest);
            if spec_poll_all(v, cycles).ready {
                let i = choose|i: int| 0 <= i < rest.len() && (#[trigger] rest[i]).0 && rest[i].1;
                assert(cycles[i + 1] == rest[i]);
                assert((cycles[i + 1]).0 && cycles[i + 1].1);
            }
            if exists|i: int| 0 <= i < cycles.len() && (#[trigger] cycles[i]).0 && cycles[i].1 {
                let i = choose|i: int|
                    0 <= i < cycles.len() && (#[trigger] cycles[i]).0 && cycles[i].1;
                assert(i != 0);
                assert(rest[i - 1] == cycles[i]);
                assert((rest[i - 1]).0 && rest[i - 1].1);
            }
        }
    }
}

/// Law: resetting for a relaunch clears the discovered port exactly when the
/// configured port is dynamic; a fixed port keeps its value across a restart.
pub proof fn lemma_restart_port_policy(v: ManagerView)
    ensures
        v.desired_port == 0 ==> spec_restart_reset(v).port is None,
        v.desired_port != 0 ==> spec_restart_reset(v).port == v.port,
{
}

/// Law: the shutdown sequencer finishes at once, sending no signal, exactly
/// when no handle is held or the process's exit was already observable.
pub proof fn lemma_shutdown_idempotent(has_child: bool, observed_exited: bool)
    ensures
        (spec_stop_decide(has_child, observed_exited) is AlreadyGone) <==> (!has_child
            || observed_exited),
{
}

/// Law: a process that ignores the graceful signal for the whole first bound
/// is escalated to a forceful kill; one that exits within the bound is not.
pub proof fn lemma_shutdown_escalates()
    ensures
        spec_stop_escalate(false) is SendKill,
        spec_stop_escalate(true) is Finished,
{
}

/// Law: when the first candidate prefix is rejected and the second accepted,
/// endpoint discovery selects the second candidate.
pub proof fn lemma_discovery_selects_alternate(s0: bool, b0: Seq<char>, s1: bool, b1: Seq<char>)
    requires
        !spec_probe_accepts(s0, b0),
        spec_probe_accepts(s1, b1),
    ensures
        spec_selected_candidate(
            spec_probe_accepts(s0, b0),
            spec_probe_accepts(s1, b1),
        ) == Some(1int),
{
}

} // verus!
