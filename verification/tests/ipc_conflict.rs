use glaze_layout::ipc_conflict::{
    finish_bind, images_to_kill, is_addr_in_use, kill_existing_glazewm_and_free_port,
    kill_named_others, kill_watcher_on_exit, listener_action, local_address_text, other_pids,
    poll_again, BindAction, BindError, BindErrorKind, BindEvent, ImageKills, IpcBind, KillOutcome,
    ListenerAction, ListenerFate, PortFileStep,
};
use glaze_layout::process_output::{
    image_pids_in, listener_pids_in, listener_pids_on_port, pids_for_image_name,
    port_has_ghost_listener, process_exists, taskkill_pid,
};

fn error(kind: BindErrorKind, message: &str) -> BindError {
    BindError { kind, raw_os_error: None, message: message.to_string() }
}

#[test]
fn detects_addr_in_use_kind() {
    let err = error(BindErrorKind::AddrInUse, "address already in use");
    assert!(is_addr_in_use(&err));
}

#[test]
fn detects_windows_10048_message() {
    let err = error(
        BindErrorKind::Other,
        "Only one usage of each socket address (protocol/network address/port) is normally permitted. (os error 10048)",
    );
    assert!(is_addr_in_use(&err));
}

#[test]
fn ignores_unrelated_errors() {
    let err = error(BindErrorKind::Other, "nope");
    assert!(!is_addr_in_use(&err));
}

#[test]
fn detects_error_number_and_texts() {
    let numbered =
        BindError { kind: BindErrorKind::Other, raw_os_error: Some(10048), message: String::new() };
    assert!(is_addr_in_use(&numbered));
    assert!(is_addr_in_use(&error(BindErrorKind::AddrInUse, "")));
    assert!(is_addr_in_use(&error(BindErrorKind::Other, "x: address already in use")));
    let other =
        BindError { kind: BindErrorKind::Other, raw_os_error: Some(98), message: String::new() };
    assert!(!is_addr_in_use(&other));
}

fn in_use() -> BindEvent {
    BindEvent::Failed(error(BindErrorKind::AddrInUse, "busy"))
}

fn step(bind: &mut IpcBind, event: BindEvent) -> BindAction {
    bind.bind_ipc_listener(event).expect("event answers the last action")
}

#[test]
fn free_port_is_bound_at_once() {
    let (mut bind, first) = IpcBind::new(6123);
    assert_eq!(first, BindAction::TryPort(6123));
    assert_eq!(
        step(&mut bind, BindEvent::Bound),
        BindAction::Finish { port: 6123, kill_rounds: 0 }
    );
    assert_eq!(bind.bind_ipc_listener(BindEvent::Bound), None);
}

#[test]
fn other_errors_fail() {
    let (mut bind, _) = IpcBind::new(6123);
    assert_eq!(
        step(&mut bind, BindEvent::Failed(error(BindErrorKind::Other, "denied"))),
        BindAction::Fail {
            message: "Failed to bind IPC listener on 127.0.0.1:6123".to_string()
        }
    );
}

#[test]
fn declining_quits() {
    let (mut bind, _) = IpcBind::new(6123);
    assert_eq!(step(&mut bind, in_use()), BindAction::CheckGhost);
    match step(&mut bind, BindEvent::GhostFound(false)) {
        BindAction::Ask { prompt } => assert_eq!(
            prompt,
            "GlazeWM could not bind the IPC socket on 127.0.0.1:6123.\n\nbusy\n\n\
             Another GlazeWM instance may still be running, or a ghost socket may still own \
             this port.\n\nYes \u{2014} Kill existing GlazeWM / watcher processes and retry\n\
             No \u{2014} Quit (do not start this instance)"
        ),
        other => panic!("unexpected {other:?}"),
    }
    assert_eq!(
        step(&mut bind, BindEvent::Answer(false)),
        BindAction::Fail {
            message: "IPC port 6123 in use; user chose Quit (abort this instance)".to_string()
        }
    );
}

#[test]
fn port_freed_by_the_kill_is_bound() {
    let (mut bind, _) = IpcBind::new(6123);
    step(&mut bind, in_use());
    step(&mut bind, BindEvent::GhostFound(false));
    assert_eq!(step(&mut bind, BindEvent::Answer(true)), BindAction::Kill);
    assert_eq!(step(&mut bind, BindEvent::Report("r".to_string())), BindAction::Poll);
    assert_eq!(
        step(&mut bind, BindEvent::Polled(true)),
        BindAction::Finish { port: 6123, kill_rounds: 1 }
    );
}

#[test]
fn user_is_asked_twice_at_most() {
    let (mut bind, _) = IpcBind::new(6123);
    for round in 0..2 {
        assert_eq!(step(&mut bind, in_use()), BindAction::CheckGhost);
        match step(&mut bind, BindEvent::GhostFound(false)) {
            BindAction::Ask { prompt } => {
                assert_eq!(prompt.contains("\n\nPrevious attempt notes:\nr0"), round == 1)
            }
            other => panic!("unexpected {other:?}"),
        }
        assert_eq!(step(&mut bind, BindEvent::Answer(true)), BindAction::Kill);
        step(&mut bind, BindEvent::Report(format!("r{round}")));
        assert_eq!(step(&mut bind, BindEvent::Polled(false)), BindAction::CheckGhost);
        assert_eq!(step(&mut bind, BindEvent::GhostFound(false)), BindAction::TryPort(6123));
    }
    step(&mut bind, in_use());
    assert_eq!(step(&mut bind, BindEvent::GhostFound(false)), BindAction::TryPort(6124));
}

#[test]
fn ghost_falls_back_to_next_ports_and_any_port() {
    let (mut bind, _) = IpcBind::new(6123);
    step(&mut bind, in_use());
    match step(&mut bind, BindEvent::GhostFound(true)) {
        BindAction::Ask { prompt } => assert!(prompt.contains("Detected a GHOST listen socket")),
        other => panic!("unexpected {other:?}"),
    }
    step(&mut bind, BindEvent::Answer(true));
    step(&mut bind, BindEvent::Report("notes".to_string()));
    step(&mut bind, BindEvent::Polled(false));
    let mut action = step(&mut bind, BindEvent::GhostFound(true));
    for port in 6124..=6133 {
        assert_eq!(action, BindAction::TryPort(port));
        action = step(&mut bind, in_use());
    }
    assert_eq!(action, BindAction::TryEphemeral);
    assert_eq!(
        step(&mut bind, in_use()),
        BindAction::Fail {
            message: "IPC port 6123 still in use (ghost=true) and all fallbacks failed. \
                      Last error: busy. notes \
                      Set GLAZEWM_IPC_PORT to a free port, or reboot to clear a ghost socket."
                .to_string()
        }
    );
}

#[test]
fn fallback_port_is_bound_and_written() {
    let (mut bind, _) = IpcBind::new(u32::MAX);
    step(&mut bind, in_use());
    step(&mut bind, BindEvent::GhostFound(true));
    step(&mut bind, BindEvent::Answer(true));
    step(&mut bind, BindEvent::Report(String::new()));
    step(&mut bind, BindEvent::Polled(false));
    assert_eq!(step(&mut bind, BindEvent::GhostFound(true)), BindAction::TryPort(u32::MAX));
    assert_eq!(step(&mut bind, in_use()), BindAction::TryEphemeral);
    assert_eq!(
        step(&mut bind, BindEvent::EphemeralBound(50_000)),
        BindAction::Finish { port: 50_000, kill_rounds: 0 }
    );

    let done = finish_bind(6125, 6123, 0);
    assert_eq!(done.address, "127.0.0.1:6125");
    assert_eq!(done.port_file, PortFileStep::Write);
    assert_eq!(
        done.message,
        Some("IPC bind succeeded on 127.0.0.1:6125 (preferred=6123, kill_rounds=0)".to_string())
    );
    let plain = finish_bind(6123, 6123, 0);
    assert_eq!(plain.port_file, PortFileStep::Clear);
    assert_eq!(plain.message, None);
    assert_eq!(local_address_text(1), "127.0.0.1:1");
}

const NETSTAT: &str = "\r\nActive Connections\r\n\r\n\
  Proto  Local Address          Foreign Address        State           PID\r\n\
  TCP    0.0.0.0:135            0.0.0.0:0              LISTENING       4\r\n\
  TCP    127.0.0.1:6123         0.0.0.0:0              LISTENING       1234\r\n\
  TCP    127.0.0.1:61234        0.0.0.0:0              LISTENING       77\r\n\
  TCP    127.0.0.1:6123         127.0.0.1:5000         ESTABLISHED     99\r\n\
  TCP    [::1]:6123             [::]:0                 LISTENING       1234\r\n\
  TCP    0.0.0.0:6123           0.0.0.0:0              LISTENING       0\r\n\
  TCP    [::]:6123              [::]:0                 listening       55\r\n";

#[test]
fn listeners_are_read_from_netstat() {
    assert_eq!(listener_pids_in(NETSTAT, 6123), vec![1234, 55]);
    assert_eq!(listener_pids_on_port(NETSTAT.as_bytes(), 61234), vec![77]);
    assert_eq!(listener_pids_on_port(NETSTAT.as_bytes(), 612), Vec::<u32>::new());
    assert_eq!(listener_pids_on_port(b"\xff 127.0.0.1:5 LISTENING 6", 5), vec![6]);
    assert_eq!(listener_pids_in("127.0.0.1:5 LISTENING 6", 5), vec![6]);
    let others = "TCP 10.0.0.0:5 0.0.0.0:0 LISTENING 6\nTCP 1.127.0.0.1:5 LISTENING 7\n\
                  TCP 8127.0.0.1:5 LISTENING 8\nTCP [1::1]:5 LISTENING 9\n";
    assert_eq!(listener_pids_in(others, 5), Vec::<u32>::new());
    assert_eq!(listener_pids_in("10.0.0.0:5 0.0.0.0:5 LISTENING 6", 5), vec![6]);
}

#[test]
fn processes_are_read_from_the_task_list() {
    let list = "\"glazewm.exe\",\"1234\",\"Console\",\"1\",\"20,000 K\"\r\n\
                INFO: a notice, \"9\"\r\n\
                broken line\r\n\
                plain.exe,77,Console\r\n";
    assert_eq!(image_pids_in(list), vec![1234, 77]);
    assert_eq!(pids_for_image_name(list.as_bytes()), vec![1234, 77]);
    assert!(process_exists(1234, Some(list.as_bytes())));
    assert!(process_exists(77, Some(list.as_bytes())));
    assert!(!process_exists(123, Some(list.as_bytes())));
    assert!(!process_exists(9, Some(list.as_bytes())));
    assert!(process_exists(9, None));
}

#[test]
fn ghosts_are_listeners_without_process() {
    assert!(port_has_ghost_listener(Some(&[1, 2]), &[2]));
    assert!(!port_has_ghost_listener(Some(&[1, 2]), &[2, 1]));
    assert!(!port_has_ghost_listener(Some(&[]), &[]));
    assert!(!port_has_ghost_listener(None, &[]));
}

#[test]
fn taskkill_output_decides() {
    assert_eq!(taskkill_pid(5, true, Some(0), b"", b""), Ok(true));
    assert_eq!(taskkill_pid(5, false, Some(1), b"SUCCESS: done", b""), Ok(true));
    assert_eq!(
        taskkill_pid(5, false, Some(128), b"", b"ERROR: The process \"5\" NOT FOUND."),
        Ok(false)
    );
    assert_eq!(
        taskkill_pid(5, false, Some(1), b"Out", b"Access Denied\xff"),
        Err("taskkill PID 5 exit=Some(1): outaccess denied\u{fffd}".to_string())
    );
    assert_eq!(
        taskkill_pid(5, false, None, "\u{c9}".as_bytes(), b""),
        Err("taskkill PID 5 exit=None: \u{e9}".to_string())
    );
}

#[test]
fn report_names_every_process() {
    assert_eq!(images_to_kill(), vec!["glazewm-watcher.exe", "glazewm.exe"]);
    assert_eq!(other_pids(&[1, 2, 3, 2], 2), vec![1, 3]);
    let named = [
        ImageKills { name: "w.exe".to_string(), kills: Ok(vec![]) },
        ImageKills {
            name: "g.exe".to_string(),
            kills: Ok(vec![
                (1, KillOutcome::Killed),
                (2, KillOutcome::Gone),
                (3, KillOutcome::Failed { error: "e".to_string() }),
            ]),
        },
        ImageKills { name: "x.exe".to_string(), kills: Err("t".to_string()) },
    ];
    let listed = "w.exe: none other than self; killed g.exe PID 1; \
                  g.exe PID 2 already gone / unkillable; failed killing g.exe PID 3: e; \
                  tasklist for x.exe failed: t";
    assert_eq!(kill_named_others(&named), listed);
    assert_eq!(kill_watcher_on_exit(&named[0]), "w.exe: none other than self");
    let listeners = Ok(vec![
        (4, ListenerFate::ThisProcess),
        (5, ListenerFate::GhostSocket),
        (6, ListenerFate::Killed),
        (7, ListenerFate::NotFound),
        (8, ListenerFate::Failed { error: "f".to_string() }),
    ]);
    assert_eq!(
        kill_existing_glazewm_and_free_port(9, &named, &listeners),
        format!(
            "{listed}; netstat listener PID 4 is this process; skipped; \
             GHOST IPC listener PID 5 on port 9 (not in tasklist) \u{2014} cannot taskkill; \
             killed IPC listener PID 6 on port 9; \
             IPC listener PID 7 on port 9 not found after kill attempt; \
             failed to kill IPC listener PID 8 on port 9: f"
        )
    );
    assert_eq!(
        kill_existing_glazewm_and_free_port(9, &named[..1], &Ok(vec![])),
        "w.exe: none other than self; netstat: no LISTENING PID found on 127.0.0.1:9"
    );
    assert_eq!(
        kill_existing_glazewm_and_free_port(9, &named[..1], &Err("n".to_string())),
        "w.exe: none other than self; netstat lookup failed: n"
    );
    assert_eq!(listener_action(1, 1, true), ListenerAction::SkipSelf);
    assert_eq!(listener_action(2, 1, false), ListenerAction::SkipGhost);
    assert_eq!(listener_action(2, 1, true), ListenerAction::Kill);
}

#[test]
fn binding_is_tried_for_five_seconds() {
    assert!(poll_again(0));
    assert!(poll_again(250));
    assert!(poll_again(4999));
    assert!(!poll_again(5000));
    assert!(!poll_again(u64::MAX));
}
