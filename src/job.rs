use vstd::prelude::*;

use crate::decimal::{decimal, decimal_string};
use crate::supervisor::Settings;

verus! {

/// The configuration of one job, fixed at startup.
pub struct JobConfig {
    pub job_id: String,
    pub world_size: usize,
    pub checkpoint_dir: String,
    /// Steps between two checkpoints.
    pub checkpoint_every: usize,
    /// The per-step sleep of a worker, in seconds, as the text handed to it.
    pub sleep_sec: String,
    pub dataset_dir: String,
    pub heartbeat_timeout_secs: u64,
    pub max_restarts: usize,
    /// Selects the remote-storage backend.
    pub use_s3: bool,
}

/// The flag text of a boolean: "1" or "0".
pub open spec fn flag_text(b: bool) -> Seq<char> {
    if b {
        seq!['1']
    } else {
        seq!['0']
    }
}

/// The environment that conveys the job to the worker of `rank`, as key/value pairs.
pub open spec fn launch_env_spec(c: JobConfig, rank: nat) -> Seq<(Seq<char>, Seq<char>)> {
    seq![
        ("JOB_ID"@, c.job_id@),
        ("RANK"@, decimal(rank)),
        ("WORLD_SIZE"@, decimal(c.world_size as nat)),
        ("CHECKPOINT_DIR"@, c.checkpoint_dir@),
        ("CHECKPOINT_EVERY"@, decimal(c.checkpoint_every as nat)),
        ("SLEEP_SEC"@, c.sleep_sec@),
        ("DATASET_DIR"@, c.dataset_dir@),
        ("USE_S3"@, flag_text(c.use_s3)),
    ]
}

/// The components of the heartbeat artifact's path for `rank`:
/// `checkpoint_dir/job_id/worker_<rank>/HEARTBEAT`.
pub open spec fn heartbeat_path_spec(c: JobConfig, rank: nat) -> Seq<Seq<char>> {
    seq![c.checkpoint_dir@, c.job_id@, "worker_"@ + decimal(rank), "HEARTBEAT"@]
}

/// A timeout in seconds as milliseconds, saturated at the largest `u64`.
pub open spec fn millis_of_secs(secs: u64) -> u64 {
    if secs * 1000 <= u64::MAX {
        (secs * 1000) as u64
    } else {
        u64::MAX
    }
}

impl JobConfig {
    /// The environment for launching the worker of `rank`.
    pub fn launch_env(&self, rank: usize) -> (r: Vec<(String, String)>)
        ensures
            r@.len() == launch_env_spec(*self, rank as nat).len(),
            forall|i: int|
                #![trigger r@[i]]
                0 <= i < r@.len() ==> (r@[i].0@, r@[i].1@) == launch_env_spec(*self, rank as nat)[i],
    {
        let use_s3 = if self.use_s3 {
            "1"
        } else {
            "0"
        };
        proof {
            reveal_strlit("1");
            reveal_strlit("0");
        }
        let mut r: Vec<(String, String)> = Vec::new();
        r.push((String::from_str("JOB_ID"), self.job_id.clone()));
        r.push((String::from_str("RANK"), decimal_string(rank)));
        r.push((String::from_str("WORLD_SIZE"), decimal_string(self.world_size)));
        r.push((String::from_str("CHECKPOINT_DIR"), self.checkpoint_dir.clone()));
        r.push((String::from_str("CHECKPOINT_EVERY"), decimal_string(self.checkpoint_every)));
        r.push((String::from_str("SLEEP_SEC"), self.sleep_sec.clone()));
        r.push((String::from_str("DATASET_DIR"), self.dataset_dir.clone()));
        r.push((String::from_str("USE_S3"), String::from_str(use_s3)));
        assert(use_s3@ =~= flag_text(self.use_s3));
        r
    }

    /// The path components of the heartbeat artifact of `rank`, outermost first.
    pub fn heartbeat_path(&self, rank: usize) -> (r: Vec<String>)
        ensures
            r@.len() == 4,
            forall|i: int| 0 <= i < 4 ==> (#[trigger] r@[i])@ == heartbeat_path_spec(*self, rank as nat)[i],
    {
        let mut dir = String::from_str("worker_");
        dir.append(decimal_string(rank).as_str());
        let mut r: Vec<String> = Vec::new();
        r.push(self.checkpoint_dir.clone());
        r.push(self.job_id.clone());
        r.push(dir);
        r.push(String::from_str("HEARTBEAT"));
        r
    }

    /// The parameters of the supervision loop for this job.
    pub fn settings(&self) -> (r: Settings)
        ensures
            r == (Settings {
                world_size: self.world_size,
                max_restarts: self.max_restarts,
                heartbeat_timeout_ms: millis_of_secs(self.heartbeat_timeout_secs),
            }),
    {
        let heartbeat_timeout_ms = if self.heartbeat_timeout_secs <= u64::MAX / 1000 {
            self.heartbeat_timeout_secs * 1000
        } else {
            u64::MAX
        };
        Settings {
            world_size: self.world_size,
            max_restarts: self.max_restarts,
            heartbeat_timeout_ms,
        }
    }
}

} // verus!
