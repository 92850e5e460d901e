//! The configuration of the service and of the hyper-parameter search, with the
//! values that apply where none is given.

use vstd::prelude::*;

verus! {

/// The number of most recent sessions kept for an item where none is configured.
pub const DEFAULT_MOST_RECENT_SESSIONS_M: usize = 500;

/// The number of neighbors where none is configured.
pub const DEFAULT_NEIGHBORHOOD_SIZE_K: usize = 500;

/// The number of recommended items where none is configured.
pub const DEFAULT_NUM_ITEMS_TO_RECOMMEND: usize = 21;

/// The longest evolving session where none is configured.
pub const DEFAULT_MAX_ITEMS_IN_SESSION: usize = 2;

/// The port the server listens on where none is configured.
pub const DEFAULT_PORT: usize = 8080;

pub struct AppConfig {
    pub server: ServerConfig,
    pub log: LogConfig,
    pub data: DataConfig,
    pub model: ModelConfig,
    pub logic: LogicConfig,
    pub hyperparam: HyperparamConfig,
}

pub struct ServerConfig {
    pub host: String,
    pub port: usize,
    pub num_workers: usize,
}

pub struct LogConfig {
    pub level: String,
}

pub struct DataConfig {
    pub training_data_path: String,
}

#[derive(Clone, Copy, Debug, PartialEq, Eq, Structural)]
pub struct ModelConfig {
    pub m_most_recent_sessions: usize,
    pub neighborhood_size_k: usize,
    pub num_items_to_recommend: usize,
    pub max_items_in_session: usize,
}

#[derive(Clone, Copy, Debug, PartialEq, Eq, Structural)]
pub struct LogicConfig {
    pub enable_business_logic: bool,
}

pub struct HyperparamConfig {
    pub training_data_path: String,
    pub test_data_path: String,
    pub validation_data_path: String,
    pub num_iterations: usize,
    pub save_records: bool,
    pub out_path: String,
    pub enable_business_logic: bool,
    pub n_most_recent_sessions_choices: String,
    pub neighborhood_size_k_choices: String,
    pub last_items_in_session_choices: String,
}

/// The given value, or the default where none is given.
pub fn value_or(given: Option<usize>, default: usize) -> (value: usize)
    ensures
        value == (match given {
            Some(v) => v,
            None => default,
        }),
{
    match given {
        Some(v) => v,
        None => default,
    }
}

impl ServerConfig {
    /// The server's configuration from what was configured: the host defaults to all
    /// interfaces, the port to [`DEFAULT_PORT`], the number of workers to the number
    /// of processors.
    pub fn parse(
        host: Option<String>,
        port: Option<usize>,
        num_workers: Option<usize>,
        processors: usize,
    ) -> (config: ServerConfig)
        ensures
            config.host@ == (match host {
                Some(h) => h@,
                None => "0.0.0.0"@,
            }),
            config.port == (match port {
                Some(p) => p,
                None => DEFAULT_PORT,
            }),
            config.num_workers == (match num_workers {
                Some(w) => w,
                None => processors,
            }),
    {
        let host: String = match host {
            Some(h) => h,
            None => "0.0.0.0".to_owned(),
        };
        ServerConfig {
            host,
            port: value_or(port, DEFAULT_PORT),
            num_workers: value_or(num_workers, processors),
        }
    }
}

impl ModelConfig {
    /// The model's configuration from what was configured, with the default for each
    /// value that was not.
    pub fn parse(
        m_most_recent_sessions: Option<usize>,
        neighborhood_size_k: Option<usize>,
        num_items_to_recommend: Option<usize>,
        max_items_in_session: Option<usize>,
    ) -> (config: ModelConfig)
        ensures
            config.m_most_recent_sessions == (match m_most_recent_sessions {
                Some(v) => v,
                None => DEFAULT_MOST_RECENT_SESSIONS_M,
            }),
            config.neighborhood_size_k == (match neighborhood_size_k {
                Some(v) => v,
                None => DEFAULT_NEIGHBORHOOD_SIZE_K,
            }),
            config.num_items_to_recommend == (match num_items_to_recommend {
                Some(v) => v,
                None => DEFAULT_NUM_ITEMS_TO_RECOMMEND,
            }),
            config.max_items_in_session == (match max_items_in_session {
                Some(v) => v,
                None => DEFAULT_MAX_ITEMS_IN_SESSION,
            }),
    {
        ModelConfig {
            m_most_recent_sessions: value_or(m_most_recent_sessions, DEFAULT_MOST_RECENT_SESSIONS_M),
            neighborhood_size_k: value_or(neighborhood_size_k, DEFAULT_NEIGHBORHOOD_SIZE_K),
            num_items_to_recommend: value_or(num_items_to_recommend, DEFAULT_NUM_ITEMS_TO_RECOMMEND),
            max_items_in_session: value_or(max_items_in_session, DEFAULT_MAX_ITEMS_IN_SESSION),
        }
    }

    /// Whether the configuration can be used: the number of neighbors must not exceed
    /// the number of most recent sessions.
    pub fn is_valid(&self) -> (valid: bool)
        ensures
            valid == (self.neighborhood_size_k <= self.m_most_recent_sessions),
    {
        self.neighborhood_size_k <= self.m_most_recent_sessions
    }

    /// The index at which the evolving session begins when the first `seen` items of a
    /// session have been seen: the evolving session is its last
    /// `max_items_in_session` items, or all of them if there are fewer.
    pub fn window_start(&self, seen: usize) -> (start: usize)
        ensures
            start == (if seen > self.max_items_in_session {
                seen - self.max_items_in_session
            } else {
                0
            }),
            start <= seen,
            seen - start <= self.max_items_in_session,
    {
        if seen > self.max_items_in_session {
            seen - self.max_items_in_session
        } else {
            0
        }
    }
}

} // verus!
