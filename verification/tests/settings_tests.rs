use axon::settings::{parse_rotation, runtime_threads, LogRotation, ServerConfig};

fn config(mode: &str, threads: usize) -> ServerConfig {
    ServerConfig {
        model_repository: "/models".to_string(),
        model_control_mode: mode.to_string(),
        repository_poll_secs: 30,
        http_port: 8000,
        grpc_port: 8001,
        metrics_port: 8002,
        inference_timeout_ms: 30000,
        num_threads: threads,
        concurrency_per_model: 4,
        log_level: "info".to_string(),
        log_dir: "/tmp/logs/axon".to_string(),
        log_rotation: "7d".to_string(),
    }
}

#[test]
fn runtime_threads_are_half_within_two_and_eight() {
    assert_eq!(runtime_threads(1), 2);
    assert_eq!(runtime_threads(5), 2);
    assert_eq!(runtime_threads(10), 5);
    assert_eq!(runtime_threads(16), 8);
    assert_eq!(runtime_threads(64), 8);
}

#[test]
fn inference_threads_follow_the_setting() {
    assert_eq!(config("none", 6).inference_threads(), 6);
    assert!(config("none", 0).inference_threads() >= 1);
}

#[test]
fn poll_mode() {
    assert!(config("poll", 1).polls_repository());
    assert!(!config("none", 1).polls_repository());
    assert!(!config("POLL", 1).polls_repository());
}

#[test]
fn rotation_settings() {
    assert_eq!(parse_rotation("7d"), (LogRotation::Daily, 7));
    assert_eq!(parse_rotation("24h"), (LogRotation::Hourly, 24));
    assert_eq!(parse_rotation("  12h \n"), (LogRotation::Hourly, 12));
    assert_eq!(parse_rotation("+3h"), (LogRotation::Hourly, 3));
    assert_eq!(parse_rotation("5w"), (LogRotation::Daily, 5));
    assert_eq!(parse_rotation("xd"), (LogRotation::Daily, 7));
    assert_eq!(parse_rotation("-2h"), (LogRotation::Hourly, 7));
    assert_eq!(parse_rotation("h"), (LogRotation::Hourly, 7));
    assert_eq!(parse_rotation(""), (LogRotation::Daily, 7));
}
