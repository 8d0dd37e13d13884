use dkim_lite::config::{IpAddress, KernelFips, ListenAddr, RuntimeConfig, TcpAddress};
use dkim_lite::service::{
    bind, queue_capacity, run_monitor, serve, startup, worker_count, worker_handles,
    workers_ended, Backlog, BindAction, BindEvent, BindState, MonitorAction, Place, ServeAction, ServeEvent,
    ServeState, Startup, SOCKET_MODE,
};
use openssl::pkey::PKey;
use openssl::rsa::Rsa;
use std::sync::Arc;

fn place(unix: bool) -> Place {
    Place {
        unix,
        name: if unix { "/run/x" } else { "127.0.0.1:1" }.to_owned(),
    }
}

/// Runs the steps of making a listener; `found` is what is at the path.
fn bound(place: &Place, found: fn() -> BindEvent, fail: &str) -> (Vec<&'static str>, Result<(), String>) {
    let mut steps = Vec::new();
    let mut state = BindState::Starting;
    let mut event = BindEvent::Start;
    loop {
        let (next, action) = bind(place, state, event);
        state = next;
        let step = match action {
            BindAction::Inspect => "inspect",
            BindAction::Remove => "remove",
            BindAction::Bind => "bind",
            BindAction::Permit => "permit",
            BindAction::Configure => "configure",
            BindAction::Finish(result) => return (steps, result),
        };
        steps.push(step);
        event = if step == "inspect" {
            found()
        } else if step == fail {
            BindEvent::Failed("broken".to_owned())
        } else {
            BindEvent::Done
        };
    }
}

#[test]
fn worker_counts_have_limits() {
    for (available, workers) in [
        (None, 4),
        (Some(0), 2),
        (Some(1), 2),
        (Some(2), 2),
        (Some(17), 17),
        (Some(32), 32),
        (Some(33), 32),
        (Some(usize::MAX), 32),
    ] {
        assert_eq!(worker_count(available), workers);
    }
    assert_eq!(queue_capacity(32), 64);
}

#[test]
fn listeners_are_made_in_steps() {
    assert_eq!(
        bound(&place(true), || BindEvent::Missing, ""),
        (vec!["inspect", "bind", "permit", "configure"], Ok(()))
    );
    assert_eq!(
        bound(&place(true), || BindEvent::Socket, ""),
        (
            vec!["inspect", "remove", "bind", "permit", "configure"],
            Ok(())
        )
    );
    assert_eq!(
        bound(&place(false), || BindEvent::Other, ""),
        (vec!["bind", "configure"], Ok(()))
    );
    assert_eq!(SOCKET_MODE, 0o660);
}

#[test]
fn only_sockets_make_way() {
    let (steps, result) = bound(&place(true), || BindEvent::Other, "");
    assert_eq!(steps, ["inspect"]);
    assert_eq!(
        result.unwrap_err(),
        "refusing to replace non-socket path /run/x"
    );
}

#[test]
fn listener_failures_are_told() {
    for (unix, fail, error) in [
        (true, "remove", "cannot remove stale socket /run/x: broken"),
        (true, "bind", "cannot bind Unix socket /run/x: broken"),
        (true, "permit", "cannot set permissions on /run/x: broken"),
        (true, "configure", "cannot configure Unix listener: broken"),
        (false, "bind", "cannot bind TCP listener 127.0.0.1:1: broken"),
        (false, "configure", "cannot configure TCP listener: broken"),
    ] {
        let (_, result) = bound(&place(unix), || BindEvent::Socket, fail);
        assert_eq!(result.unwrap_err(), error);
    }
}

#[test]
fn connections_go_to_workers() {
    let (state, action, _) = serve(ServeState::Starting, false, ServeEvent::Start);
    assert!(matches!(action, ServeAction::Wait(100)));
    let (state, action, _) = serve(state, false, ServeEvent::NotReady);
    assert!(matches!(action, ServeAction::Wait(100)));
    let (state, action, _) = serve(state, false, ServeEvent::Ready);
    assert!(matches!(action, ServeAction::Accept));
    let (state, action, _) = serve(state, false, ServeEvent::Accepted);
    assert!(matches!(action, ServeAction::Queue));
    let (state, action, report) = serve(state, false, ServeEvent::Queued);
    assert!(matches!(action, ServeAction::Wait(0)));
    assert_eq!(report, None);
    let (state, action, _) = serve(state, false, ServeEvent::Ready);
    assert!(matches!(action, ServeAction::Accept));
    let (state, _, _) = serve(state, false, ServeEvent::Accepted);
    let (state, action, report) = serve(state, false, ServeEvent::QueueFull);
    assert!(matches!(action, ServeAction::Wait(0)));
    assert_eq!(
        report.as_deref(),
        Some("worker queue full; dropping milter connection")
    );
    let (state, action, _) = serve(state, false, ServeEvent::NotReady);
    assert!(matches!(action, ServeAction::Wait(100)));
    let (state, _, _) = serve(state, false, ServeEvent::Ready);
    let (_, action, _) = serve(state, false, ServeEvent::WouldBlock);
    assert!(matches!(action, ServeAction::Wait(100)));
}

#[test]
fn shutdown_stops_the_service() {
    for (state, event) in [
        (ServeState::Starting, ServeEvent::Start),
        (ServeState::Waiting, ServeEvent::Ready),
        (ServeState::Waiting, ServeEvent::NotReady),
        (ServeState::Accepting, ServeEvent::WouldBlock),
        (
            ServeState::Accepting,
            ServeEvent::AcceptFailed("closed".to_owned()),
        ),
        (ServeState::Polling, ServeEvent::NotReady),
    ] {
        let (_, action, _) = serve(state, true, event);
        assert!(matches!(action, ServeAction::Stop(Ok(()))));
    }
}

#[test]
fn listener_failures_stop_the_service() {
    for (state, event, expected) in [
        (
            ServeState::Waiting,
            ServeEvent::WaitFailed("x".to_owned()),
            "listener readiness failed: x",
        ),
        (
            ServeState::Polling,
            ServeEvent::WaitFailed("y".to_owned()),
            "listener readiness failed: y",
        ),
        (
            ServeState::Accepting,
            ServeEvent::AcceptFailed("z".to_owned()),
            "listener failed: z",
        ),
    ] {
        match serve(state, false, event).1 {
            ServeAction::Stop(Err(error)) => assert_eq!(error, expected),
            _ => panic!("goes on"),
        }
    }
}

#[test]
fn workers_end() {
    assert!(worker_handles(true, false));
    assert!(!worker_handles(true, true));
    assert!(!worker_handles(false, false));
    assert_eq!(workers_ended(false), Ok(()));
    assert_eq!(
        workers_ended(true).unwrap_err(),
        "milter worker thread panicked"
    );
}

#[test]
fn daemon_starts_with_a_valid_configuration() {
    let key = Arc::new(PKey::from_rsa(Rsa::generate(2048).unwrap()).unwrap());
    let config = |require_fips: bool| -> Result<RuntimeConfig, String> {
        Ok(RuntimeConfig {
            domain: "example.com".to_owned(),
            selector: "test".to_owned(),
            private_key: "/k".to_owned(),
            listen: ListenAddr::Tcp(TcpAddress {
                ip: IpAddress::V4(0x7f00_0001),
                port: 8891,
                scope: 0,
            }),
            require_fips,
            key: key.clone(),
        })
    };
    let off = KernelFips::Status("0\n".to_owned());
    let on = KernelFips::Status("1\n".to_owned());
    for (config, kernel, openssl) in [
        (config(false), &off, false),
        (config(false), &on, true),
        (config(true), &on, true),
    ] {
        match startup(config, kernel, openssl, false) {
            Ok(Startup::Serve(config)) => assert_eq!(config.domain, "example.com"),
            _ => panic!("does not serve"),
        }
    }
    match startup(config(false), &off, false, true) {
        Ok(Startup::Report(text)) => assert_eq!(text, "configuration valid"),
        _ => panic!("no report"),
    }
    for (kernel, openssl, expected) in [
        (
            &off,
            true,
            "system FIPS mode is disabled; dkim-lite production builds require FIPS",
        ),
        (
            &on,
            false,
            "kernel FIPS mode is enabled but system OpenSSL is not in FIPS mode",
        ),
    ] {
        for check_only in [false, true] {
            match startup(config(true), kernel, openssl, check_only) {
                Err(error) => assert_eq!(error, expected),
                Ok(_) => panic!("starts"),
            }
        }
    }
    match startup(Err("broken".to_owned()), &on, true, false) {
        Err(error) => assert_eq!(error, "broken"),
        Ok(_) => panic!("starts"),
    }
}

#[test]
fn waiting_connections_are_bounded() {
    let mut backlog: Backlog<u32> = Backlog::new(worker_count(Some(1000)));
    for item in 0..64 {
        assert_eq!(backlog.offer(item), None);
    }
    assert_eq!(backlog.offer(64), Some(64));
    assert_eq!(backlog.take(), Some(0));
    assert_eq!(backlog.offer(65), None);
    assert_eq!(backlog.offer(66), Some(66));
    assert!(!backlog.is_closed());
    backlog.close();
    assert!(backlog.is_closed());
    for item in (1..64).chain([65]) {
        assert_eq!(backlog.take(), Some(item));
    }
    assert_eq!(backlog.take(), None);
    assert_eq!(backlog.offer(67), Some(67));
}

#[test]
fn signals_are_acted_on() {
    assert_eq!(run_monitor(true, true), MonitorAction::Stop);
    assert_eq!(run_monitor(true, false), MonitorAction::Stop);
    assert_eq!(run_monitor(false, true), MonitorAction::Reload);
    assert_eq!(run_monitor(false, false), MonitorAction::Sleep);
}
