use load_balancer::{
    ends_request_head, response, status_after_probe, Forwarding, PoolState, RouteError, Routes,
    ServerStatus, WorkerStep,
};

#[test]
fn delivered_body_follows_the_success_line() {
    let outcome = Forwarding::Delivered("Hello From Backend Server 1".to_string());
    assert_eq!(response(&outcome), "HTTP/1.1 200 OK\r\n\r\nHello From Backend Server 1");
}

#[test]
fn delivered_empty_body_is_the_success_line_alone() {
    assert_eq!(response(&Forwarding::Delivered(String::new())), "HTTP/1.1 200 OK\r\n\r\n");
}

#[test]
fn no_running_server_is_answered_as_unavailable() {
    assert_eq!(
        response(&Forwarding::NoServerRunning),
        "HTTP/1.1 503 Service Unavailable\r\n\r\n"
    );
}

#[test]
fn failed_backend_is_answered_as_bad_gateway() {
    assert_eq!(response(&Forwarding::BackendFailed), "HTTP/1.1 502 Bad Gateway\r\n\r\n");
}

#[test]
fn request_head_ends_at_the_empty_line() {
    assert!(ends_request_head(""));
    assert!(!ends_request_head("GET / HTTP/1.1"));
    assert!(!ends_request_head(" "));
    assert!(!ends_request_head("Host: 127.0.0.1:8080"));
}

#[test]
fn probe_outcome_decides_the_status() {
    assert_eq!(status_after_probe(true), ServerStatus::Running);
    assert_eq!(status_after_probe(false), ServerStatus::Stopped);
}

#[test]
fn failed_probe_stops_the_server_and_answered_probe_revives_it() {
    let mut routes = Routes::new(3);
    assert_eq!(routes.add_server("http://127.0.0.1:8082"), Ok(()));
    assert_eq!(routes.add_server("http://127.0.0.1:8081"), Ok(()));
    assert!(routes.record_probe("http://127.0.0.1:8081", false));
    assert_eq!(routes.status_of("http://127.0.0.1:8081"), Some(ServerStatus::Stopped));
    assert_eq!(routes.status_of("http://127.0.0.1:8082"), Some(ServerStatus::Running));
    assert!(routes.record_probe("http://127.0.0.1:8081", false));
    assert_eq!(routes.status_of("http://127.0.0.1:8081"), Some(ServerStatus::Stopped));
    assert!(routes.record_probe("http://127.0.0.1:8081", true));
    assert_eq!(routes.status_of("http://127.0.0.1:8081"), Some(ServerStatus::Running));
    assert!(routes.record_probe("http://127.0.0.1:8081", true));
    assert_eq!(routes.status_of("http://127.0.0.1:8081"), Some(ServerStatus::Running));
    assert_eq!(routes.read_index(), 0);
}

#[test]
fn probe_of_an_unknown_server_changes_nothing() {
    let mut routes = Routes::new(2);
    assert_eq!(routes.add_server("a"), Ok(()));
    assert!(!routes.record_probe("b", true));
    assert!(!routes.record_probe("b", false));
    assert_eq!(routes.len(), 1);
    assert_eq!(routes.status_of("a"), Some(ServerStatus::Running));
    assert_eq!(routes.status_of("b"), None);
}

#[test]
fn monitor_sweep_reaches_every_registered_server() {
    let mut routes = Routes::new(3);
    for name in ["X", "Y", "Z"] {
        assert_eq!(routes.add_server(name), Ok(()));
    }
    for name in routes.servers() {
        assert!(routes.record_probe(&name, name != "Y"));
    }
    assert_eq!(routes.status_of("X"), Some(ServerStatus::Running));
    assert_eq!(routes.status_of("Y"), Some(ServerStatus::Stopped));
    assert_eq!(routes.status_of("Z"), Some(ServerStatus::Running));
}

fn serve(routes: &mut Routes, backend_up: bool) -> (Option<String>, String) {
    match routes.get_running_server() {
        Ok(server) => {
            let outcome = if backend_up {
                Forwarding::Delivered(format!("hello from {}", server))
            } else {
                Forwarding::BackendFailed
            };
            (Some(server), response(&outcome))
        }
        Err(RouteError::NoServerRunning) => (None, response(&Forwarding::NoServerRunning)),
        Err(other) => panic!("selection cannot fail with {:?}", other),
    }
}

#[test]
fn end_to_end_four_connections_over_three_servers_and_two_workers() {
    let mut routes = Routes::new(3);
    for name in ["X", "Y", "Z"] {
        assert_eq!(routes.add_server(name), Ok(()));
    }
    let mut pool: PoolState<u32> = PoolState::new(2);
    for connection in 0..4 {
        assert_eq!(pool.submit(connection), Ok(()));
    }
    let mut assigned = Vec::new();
    let mut answers = vec![0u32; 4];
    loop {
        assert!(pool.idle() > 0);
        match pool.next_step() {
            WorkerStep::Run(connection) => {
                let (server, answer) = serve(&mut routes, true);
                let server = server.unwrap();
                assert_eq!(answer, format!("HTTP/1.1 200 OK\r\n\r\nhello from {}", server));
                assigned.push(server);
                answers[connection as usize] += 1;
                pool.finish();
            }
            WorkerStep::Wait => break,
            WorkerStep::Exit => unreachable!(),
        }
    }
    assert_eq!(
        assigned,
        vec!["X".to_string(), "Y".to_string(), "Z".to_string(), "X".to_string()]
    );
    assert_eq!(answers, vec![1, 1, 1, 1]);
    pool.shut_down();
    assert_eq!(pool.next_step(), WorkerStep::Exit);
    assert_eq!(pool.next_step(), WorkerStep::Exit);
    assert!(pool.is_terminated());
}

#[test]
fn connection_is_answered_when_every_server_is_stopped() {
    let mut routes = Routes::new(2);
    assert_eq!(routes.add_server("X"), Ok(()));
    assert!(routes.record_probe("X", false));
    let (server, answer) = serve(&mut routes, true);
    assert_eq!(server, None);
    assert_eq!(answer, "HTTP/1.1 503 Service Unavailable\r\n\r\n");
}

#[test]
fn connection_is_answered_when_the_backend_call_fails() {
    let mut routes = Routes::new(2);
    assert_eq!(routes.add_server("X"), Ok(()));
    let (server, answer) = serve(&mut routes, false);
    assert_eq!(server, Some("X".to_string()));
    assert_eq!(answer, "HTTP/1.1 502 Bad Gateway\r\n\r\n");
    assert_eq!(routes.status_of("X"), Some(ServerStatus::Running));
}
