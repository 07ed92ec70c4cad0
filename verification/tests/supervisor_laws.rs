use openchamber::supervisor::{
    liveness_verdict, normalize_api_prefix, probe_accepts, select_prefix, stop_decide,
    stop_escalate, EscalationDecision, LivenessVerdict, OpenCodeManager, ProbeOutcome,
    StartDecision, StopDecision, SupervisorError,
};

fn ready_dynamic_manager() -> OpenCodeManager {
    let mut mgr = OpenCodeManager::new_with_directory(
        Some(String::from("/usr/local/bin/opencode")),
        0,
        None,
        String::from("/tmp"),
    );
    assert!(matches!(mgr.start_begin(), StartDecision::Spawn));
    mgr.on_spawned();
    mgr.ingest_output_line("listening on http://127.0.0.1:4097/");
    assert!(mgr.port_check());
    mgr.detect_api_prefix(None);
    assert!(mgr.on_poll_cycle(true, true));
    mgr
}

#[test]
fn ensure_running_is_idempotent_when_ready() {
    let mut mgr = ready_dynamic_manager();
    assert!(mgr.is_ready());
    let port_before = mgr.current_port();
    // two further start attempts perform no spawn at all
    assert!(matches!(mgr.start_begin(), StartDecision::AlreadyRunning));
    assert!(matches!(mgr.start_begin(), StartDecision::AlreadyRunning));
    assert!(mgr.is_ready());
    assert_eq!(mgr.current_port(), port_before);
}

#[test]
fn start_without_binary_is_unavailable() {
    let mut mgr = OpenCodeManager::new_with_directory(None, 0, None, String::from("."));
    assert!(!mgr.is_cli_available());
    assert!(matches!(mgr.start_begin(), StartDecision::Unavailable));
}

#[test]
fn port_silence_times_out_and_never_polls() {
    let mut mgr = OpenCodeManager::new_with_directory(
        Some(String::from("opencode")),
        0,
        None,
        String::from("."),
    );
    assert!(matches!(mgr.start_begin(), StartDecision::Spawn));
    mgr.on_spawned();
    mgr.ingest_output_line("starting up...");
    mgr.ingest_output_line("no address here");
    assert!(!mgr.port_check());
    assert_eq!(mgr.current_port(), None);
    let err = mgr.on_port_timeout();
    assert!(matches!(err, SupervisorError::PortDiscoveryTimeout));
    assert!(!mgr.is_ready());
}

#[test]
fn last_announced_address_wins() {
    let mut mgr = OpenCodeManager::new_with_directory(
        Some(String::from("opencode")),
        0,
        None,
        String::from("."),
    );
    assert!(matches!(mgr.start_begin(), StartDecision::Spawn));
    mgr.on_spawned();
    mgr.ingest_output_line("http://127.0.0.1:4097/");
    assert_eq!(mgr.current_port(), Some(4097));
    assert_eq!(mgr.api_prefix(), "");
    mgr.ingest_output_line("http://127.0.0.1:4098/api");
    assert_eq!(mgr.current_port(), Some(4098));
    assert_eq!(mgr.api_prefix(), "/api");
}

#[test]
fn discovery_selects_json_candidate() {
    let html = ProbeOutcome {
        success: true,
        body: String::from("<!DOCTYPE html><html></html>"),
    };
    let json = ProbeOutcome {
        success: true,
        body: String::from("  {\"agents\": []}"),
    };
    assert!(!probe_accepts(&html));
    assert!(probe_accepts(&json));
    assert_eq!(select_prefix(&html, &json), Some(1));
    assert_eq!(select_prefix(&json, &html), Some(0));
    let failed = ProbeOutcome {
        success: false,
        body: String::from("{}"),
    };
    assert!(!probe_accepts(&failed));
    assert_eq!(select_prefix(&failed, &html), None);
}

#[test]
fn shutdown_already_exited_sends_no_signal() {
    assert!(matches!(stop_decide(false, false), StopDecision::AlreadyGone));
    assert!(matches!(stop_decide(true, true), StopDecision::AlreadyGone));
    assert!(matches!(stop_decide(true, false), StopDecision::SendGraceful));
}

#[test]
fn shutdown_escalates_and_still_succeeds() {
    // a process that ignores the graceful signal for the whole first bound
    assert!(matches!(stop_escalate(false), EscalationDecision::SendKill));
    assert!(matches!(stop_escalate(true), EscalationDecision::Finished));
    // the sequencer never fails the shutdown, whatever was observed
    let mut mgr = ready_dynamic_manager();
    mgr.shutdown_begin();
    mgr.on_stopped();
    assert!(mgr.is_shutting_down());
    assert!(!mgr.is_ready());
    assert!(!mgr.is_child_running());
}

#[test]
fn restart_clears_dynamic_port_only() {
    let mut dynamic = ready_dynamic_manager();
    assert_eq!(dynamic.current_port(), Some(4097));
    dynamic.restart_begin();
    dynamic.restart_reset();
    assert_eq!(dynamic.current_port(), None);
    assert_eq!(dynamic.api_prefix(), "");

    let mut fixed = OpenCodeManager::new_with_directory(
        Some(String::from("opencode")),
        4200,
        None,
        String::from("."),
    );
    assert!(matches!(fixed.start_begin(), StartDecision::Spawn));
    fixed.on_spawned();
    assert_eq!(fixed.current_port(), Some(4200));
    fixed.restart_begin();
    fixed.restart_reset();
    assert_eq!(fixed.current_port(), Some(4200));
}

#[test]
fn readiness_needs_both_endpoints_in_one_cycle() {
    let mut mgr = OpenCodeManager::new_with_directory(
        Some(String::from("opencode")),
        5000,
        None,
        String::from("."),
    );
    assert!(matches!(mgr.start_begin(), StartDecision::Spawn));
    mgr.on_spawned();
    mgr.detect_api_prefix(None);
    assert!(!mgr.on_poll_cycle(true, false));
    assert!(!mgr.is_ready());
    assert!(!mgr.on_poll_cycle(false, true));
    assert!(!mgr.is_ready());
    assert!(!mgr.on_poll_cycle(false, false));
    assert!(!mgr.is_ready());
    assert!(mgr.on_poll_cycle(true, true));
    assert!(mgr.is_ready());
}

#[test]
fn liveness_window_flags_early_exit_only() {
    assert!(matches!(liveness_verdict(false, true), LivenessVerdict::EarlyExit));
    assert!(matches!(liveness_verdict(true, true), LivenessVerdict::Proceed));
    assert!(matches!(liveness_verdict(false, false), LivenessVerdict::Proceed));
    assert!(matches!(liveness_verdict(true, false), LivenessVerdict::Proceed));
}

#[test]
fn health_and_probe_urls() {
    let mut mgr = OpenCodeManager::new_with_directory(
        Some(String::from("opencode")),
        4096,
        None,
        String::from("."),
    );
    assert!(matches!(mgr.start_begin(), StartDecision::Spawn));
    mgr.on_spawned();
    assert_eq!(mgr.probe_url(0), "http://127.0.0.1:4096/config");
    assert_eq!(mgr.probe_url(1), "http://127.0.0.1:4096/api/config");
    mgr.detect_api_prefix(Some(1));
    let (config_url, agent_url) = mgr.health_urls();
    assert_eq!(config_url, "http://127.0.0.1:4096/api/config");
    assert_eq!(agent_url, "http://127.0.0.1:4096/api/agent");
}

#[test]
fn rewrite_path_strips_fixed_prefix() {
    let mgr = OpenCodeManager::new_with_directory(None, 0, None, String::from("."));
    assert_eq!(mgr.rewrite_path("/api"), "/");
    assert_eq!(mgr.rewrite_path("/api/session"), "/session");
    assert_eq!(mgr.rewrite_path("/other"), "/other");
    assert_eq!(mgr.rewrite_path(""), "");
    assert_eq!(mgr.rewrite_path("/apifoo"), "foo");
}

#[test]
fn normalize_api_prefix_shapes() {
    assert_eq!(normalize_api_prefix(""), "");
    assert_eq!(normalize_api_prefix("/"), "");
    assert_eq!(normalize_api_prefix("  "), "");
    assert_eq!(normalize_api_prefix("api"), "/api");
    assert_eq!(normalize_api_prefix("/api/"), "/api");
    assert_eq!(normalize_api_prefix(" /api "), "/api");
    assert_eq!(normalize_api_prefix("///"), "/");
}

#[test]
fn working_directory_setter() {
    let mut mgr = OpenCodeManager::new_with_directory(None, 0, None, String::from("/a"));
    assert_eq!(mgr.get_working_directory(), "/a");
    mgr.set_working_directory(String::from("/b"));
    assert_eq!(mgr.get_working_directory(), "/b");
}

#[test]
fn launch_args_carry_port_and_config() {
    let mgr = OpenCodeManager::new_with_directory(
        Some(String::from("opencode")),
        4242,
        Some(String::from("/etc/conf.json")),
        String::from("."),
    );
    let args: Vec<String> = mgr.launch_args().clone();
    assert_eq!(
        args,
        vec![
            String::from("serve"),
            String::from("--port"),
            String::from("4242"),
            String::from("--config"),
            String::from("/etc/conf.json"),
        ]
    );
    let bare = OpenCodeManager::new_with_directory(
        Some(String::from("opencode")),
        0,
        Some(String::from("")),
        String::from("."),
    );
    let bare_args: Vec<String> = bare.launch_args().clone();
    assert_eq!(
        bare_args,
        vec![String::from("serve"), String::from("--port"), String::from("0")]
    );
}
