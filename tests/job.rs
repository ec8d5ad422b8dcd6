use coordinator::decimal::decimal_string;
use coordinator::job::JobConfig;
use coordinator::supervisor::Settings;

fn config(use_s3: bool) -> JobConfig {
    JobConfig {
        job_id: "demo-job".to_string(),
        world_size: 4,
        checkpoint_dir: "./checkpoints".to_string(),
        checkpoint_every: 5,
        sleep_sec: "0.5".to_string(),
        dataset_dir: "./data/shards".to_string(),
        heartbeat_timeout_secs: 10,
        max_restarts: 50,
        use_s3,
    }
}

fn pairs(v: &[(&str, &str)]) -> Vec<(String, String)> {
    v.iter().map(|(k, x)| (k.to_string(), x.to_string())).collect()
}

#[test]
fn launch_env_conveys_the_job() {
    let env = config(false).launch_env(3);
    assert_eq!(
        env,
        pairs(&[
            ("JOB_ID", "demo-job"),
            ("RANK", "3"),
            ("WORLD_SIZE", "4"),
            ("CHECKPOINT_DIR", "./checkpoints"),
            ("CHECKPOINT_EVERY", "5"),
            ("SLEEP_SEC", "0.5"),
            ("DATASET_DIR", "./data/shards"),
            ("USE_S3", "0"),
        ])
    );
}

#[test]
fn launch_env_flags_remote_storage() {
    let env = config(true).launch_env(12);
    assert_eq!(env[1], ("RANK".to_string(), "12".to_string()));
    assert_eq!(env[7], ("USE_S3".to_string(), "1".to_string()));
}

#[test]
fn heartbeat_path_is_per_rank() {
    assert_eq!(
        config(false).heartbeat_path(7),
        vec!["./checkpoints", "demo-job", "worker_7", "HEARTBEAT"]
    );
    assert_eq!(config(false).heartbeat_path(10)[2], "worker_10");
}

#[test]
fn settings_convert_timeout_to_millis() {
    assert_eq!(
        config(false).settings(),
        Settings { world_size: 4, max_restarts: 50, heartbeat_timeout_ms: 10_000 }
    );
    let mut huge = config(false);
    huge.heartbeat_timeout_secs = u64::MAX;
    assert_eq!(huge.settings().heartbeat_timeout_ms, u64::MAX);
}

#[test]
fn decimal_writes_digits() {
    assert_eq!(decimal_string(0), "0");
    assert_eq!(decimal_string(9), "9");
    assert_eq!(decimal_string(10), "10");
    assert_eq!(decimal_string(1_234_567_890), "1234567890");
    assert_eq!(decimal_string(usize::MAX), usize::MAX.to_string());
}
