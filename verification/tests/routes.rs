use load_balancer::{RouteError, Routes, ServerStatus};

fn table_of(capacity: usize, names: &[&str]) -> Routes {
    let mut routes = Routes::new(capacity);
    for name in names {
        assert_eq!(routes.add_server(name), Ok(()));
    }
    routes
}

#[test]
fn new_table_is_empty() {
    let routes = Routes::new(3);
    assert_eq!(routes.len(), 0);
    assert_eq!(routes.capacity(), 3);
    assert_eq!(routes.read_index(), 0);
    assert!(routes.servers().is_empty());
    assert!(!routes.is_current_server_running());
}

#[test]
fn empty_table_has_no_server_to_hand_out() {
    let mut routes = Routes::new(3);
    assert_eq!(routes.get_running_server(), Err(RouteError::NoServerRunning));
    assert_eq!(routes.read_index(), 0);
    assert_eq!(routes.len(), 0);
}

#[test]
fn zero_capacity_table_refuses_every_server() {
    let mut routes = Routes::new(0);
    assert_eq!(routes.add_server("http://127.0.0.1:8081"), Err(RouteError::CapacityExceeded));
    assert_eq!(routes.len(), 0);
    assert_eq!(routes.get_running_server(), Err(RouteError::NoServerRunning));
}

#[test]
fn registrations_are_counted_up_to_capacity() {
    let mut routes = Routes::new(3);
    assert_eq!(routes.add_server("http://127.0.0.1:8082"), Ok(()));
    assert_eq!(routes.len(), 1);
    assert_eq!(routes.add_server("http://127.0.0.1:8081"), Ok(()));
    assert_eq!(routes.len(), 2);
    assert_eq!(routes.add_server("http://127.0.0.1:8083"), Ok(()));
    assert_eq!(routes.len(), 3);
    assert_eq!(routes.add_server("http://127.0.0.1:8084"), Err(RouteError::CapacityExceeded));
    assert_eq!(routes.len(), 3);
    assert_eq!(
        routes.servers(),
        vec![
            "http://127.0.0.1:8082".to_string(),
            "http://127.0.0.1:8081".to_string(),
            "http://127.0.0.1:8083".to_string(),
        ]
    );
    assert_eq!(routes.status_of("http://127.0.0.1:8084"), None);
    assert_eq!(routes.read_index(), 0);
}

#[test]
fn registered_server_starts_running() {
    let routes = table_of(2, &["a"]);
    assert_eq!(routes.status_of("a"), Some(ServerStatus::Running));
    assert!(routes.is_current_server_running());
}

#[test]
fn duplicate_registration_is_refused() {
    let mut routes = table_of(3, &["a", "b"]);
    assert_eq!(routes.add_server("a"), Err(RouteError::DuplicateServer));
    assert_eq!(routes.len(), 2);
    assert_eq!(routes.servers(), vec!["a".to_string(), "b".to_string()]);
}

#[test]
fn duplicate_registration_does_not_revive_a_stopped_server() {
    let mut routes = table_of(3, &["a", "b"]);
    assert!(routes.disable_server("a"));
    assert_eq!(routes.add_server("a"), Err(RouteError::DuplicateServer));
    assert_eq!(routes.status_of("a"), Some(ServerStatus::Stopped));
}

#[test]
fn full_table_reports_capacity_before_duplicates() {
    let mut routes = table_of(2, &["a", "b"]);
    assert_eq!(routes.add_server("a"), Err(RouteError::CapacityExceeded));
    assert_eq!(routes.add_server("c"), Err(RouteError::CapacityExceeded));
}

#[test]
fn rotation_visits_each_running_server_once_then_repeats() {
    let mut routes = table_of(3, &["X", "Y", "Z"]);
    assert_eq!(routes.get_running_server(), Ok("X".to_string()));
    assert_eq!(routes.read_index(), 1);
    assert_eq!(routes.get_running_server(), Ok("Y".to_string()));
    assert_eq!(routes.read_index(), 2);
    assert_eq!(routes.get_running_server(), Ok("Z".to_string()));
    assert_eq!(routes.read_index(), 0);
    assert_eq!(routes.get_running_server(), Ok("X".to_string()));
    assert_eq!(routes.read_index(), 1);
}

#[test]
fn rotation_starts_at_the_cursor() {
    let mut routes = table_of(3, &["X", "Y", "Z"]);
    assert_eq!(routes.get_running_server(), Ok("X".to_string()));
    assert_eq!(routes.get_running_server(), Ok("Y".to_string()));
    let mut seen = Vec::new();
    for _ in 0..4 {
        seen.push(routes.get_running_server().unwrap());
    }
    assert_eq!(seen, vec!["Z".to_string(), "X".to_string(), "Y".to_string(), "Z".to_string()]);
}

#[test]
fn rotation_wraps_at_the_number_of_servers_not_the_capacity() {
    let mut routes = table_of(5, &["a", "b"]);
    assert_eq!(routes.get_running_server(), Ok("a".to_string()));
    assert_eq!(routes.get_running_server(), Ok("b".to_string()));
    assert_eq!(routes.read_index(), 0);
    assert_eq!(routes.get_running_server(), Ok("a".to_string()));
    assert_eq!(routes.get_running_server(), Ok("b".to_string()));
}

#[test]
fn rotation_among_the_running_servers_only() {
    let mut routes = table_of(5, &["a", "b", "c", "d", "e"]);
    assert!(routes.disable_server("b"));
    assert!(routes.disable_server("d"));
    let mut seen = Vec::new();
    for _ in 0..4 {
        seen.push(routes.get_running_server().unwrap());
    }
    assert_eq!(seen, vec!["a".to_string(), "c".to_string(), "e".to_string(), "a".to_string()]);
}

#[test]
fn skip_scan_returns_the_first_running_server() {
    let mut routes = table_of(3, &["A", "B", "C"]);
    assert!(routes.disable_server("A"));
    assert!(routes.disable_server("C"));
    assert_eq!(routes.read_index(), 0);
    assert!(!routes.is_current_server_running());
    assert_eq!(routes.get_running_server(), Ok("B".to_string()));
    assert_eq!(routes.read_index(), 2);
    assert!(!routes.is_current_server_running());
    assert_eq!(routes.get_running_server(), Ok("B".to_string()));
    assert_eq!(routes.read_index(), 2);
}

#[test]
fn skip_scan_wraps_around_the_end() {
    let mut routes = table_of(3, &["A", "B", "C"]);
    assert_eq!(routes.get_running_server(), Ok("A".to_string()));
    assert_eq!(routes.get_running_server(), Ok("B".to_string()));
    assert!(routes.disable_server("C"));
    assert_eq!(routes.read_index(), 2);
    assert_eq!(routes.get_running_server(), Ok("A".to_string()));
    assert_eq!(routes.read_index(), 1);
}

#[test]
fn all_stopped_reports_no_server_running() {
    let mut routes = table_of(3, &["A", "B", "C"]);
    assert!(routes.disable_server("A"));
    assert!(routes.disable_server("B"));
    assert!(routes.disable_server("C"));
    assert_eq!(routes.get_running_server(), Err(RouteError::NoServerRunning));
    assert_eq!(routes.read_index(), 1);
    assert_eq!(routes.get_running_server(), Err(RouteError::NoServerRunning));
    assert_eq!(routes.read_index(), 2);
    assert_eq!(routes.get_running_server(), Err(RouteError::NoServerRunning));
    assert_eq!(routes.read_index(), 0);
    assert_eq!(routes.len(), 3);
    assert_eq!(routes.status_of("B"), Some(ServerStatus::Stopped));
}

#[test]
fn single_stopped_server_keeps_the_cursor_in_place() {
    let mut routes = table_of(1, &["A"]);
    assert!(routes.disable_server("A"));
    assert_eq!(routes.get_running_server(), Err(RouteError::NoServerRunning));
    assert_eq!(routes.read_index(), 0);
}

#[test]
fn server_takes_its_turn_again_once_enabled() {
    let mut routes = table_of(2, &["A", "B"]);
    assert!(routes.disable_server("A"));
    assert!(routes.disable_server("B"));
    assert_eq!(routes.get_running_server(), Err(RouteError::NoServerRunning));
    assert!(routes.enable_server("A"));
    assert_eq!(routes.get_running_server(), Ok("A".to_string()));
    assert_eq!(routes.get_running_server(), Ok("A".to_string()));
}

#[test]
fn health_updates_are_idempotent() {
    let mut routes = table_of(2, &["E", "F"]);
    assert!(routes.set_health("E", ServerStatus::Running));
    assert!(routes.set_health("E", ServerStatus::Running));
    assert_eq!(routes.status_of("E"), Some(ServerStatus::Running));
    assert!(routes.set_health("E", ServerStatus::Stopped));
    assert!(routes.set_health("E", ServerStatus::Stopped));
    assert_eq!(routes.status_of("E"), Some(ServerStatus::Stopped));
    assert_eq!(routes.status_of("F"), Some(ServerStatus::Running));
    assert_eq!(routes.read_index(), 0);
    assert_eq!(routes.len(), 2);
}

#[test]
fn health_update_for_unknown_server_is_ignored() {
    let mut routes = table_of(2, &["E"]);
    assert!(!routes.set_health("nobody", ServerStatus::Stopped));
    assert!(!routes.disable_server("nobody"));
    assert!(!routes.enable_server("nobody"));
    assert_eq!(routes.len(), 1);
    assert_eq!(routes.status_of("E"), Some(ServerStatus::Running));
    assert_eq!(routes.status_of("nobody"), None);
}

#[test]
fn failure_scenario_skips_the_stopped_server() {
    let mut routes = table_of(3, &["X", "Y", "Z"]);
    assert_eq!(routes.get_running_server(), Ok("X".to_string()));
    assert!(routes.disable_server("Y"));
    assert_eq!(routes.get_running_server(), Ok("Z".to_string()));
    assert_eq!(routes.read_index(), 0);
}

#[test]
fn is_current_server_running_does_not_move_the_cursor() {
    let mut routes = table_of(2, &["A", "B"]);
    assert!(routes.is_current_server_running());
    assert!(routes.is_current_server_running());
    assert_eq!(routes.read_index(), 0);
    assert!(routes.disable_server("A"));
    assert!(!routes.is_current_server_running());
    assert_eq!(routes.read_index(), 0);
}

#[test]
fn names_are_compared_whole() {
    let mut routes = table_of(3, &["http://127.0.0.1:8081", "http://127.0.0.1:808"]);
    assert!(routes.disable_server("http://127.0.0.1:808"));
    assert_eq!(routes.status_of("http://127.0.0.1:8081"), Some(ServerStatus::Running));
    assert_eq!(routes.status_of("http://127.0.0.1:808"), Some(ServerStatus::Stopped));
    assert_eq!(routes.status_of("http://127.0.0.1:80"), None);
}

#[test]
fn route_error_messages() {
    assert_eq!(RouteError::CapacityExceeded.message(), "Not enough capacity!");
    assert_eq!(RouteError::DuplicateServer.message(), "The server is already registered!");
    assert_eq!(RouteError::NoServerRunning.message(), "There are no servers running!");
}
