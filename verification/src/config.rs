//! Recognized configuration, with the model defaults.
//!
//! Parsing (files, environment) is left to the surrounding application,
//! which fills these plain structs.

use vstd::prelude::*;

verus! {

/// Default most-recent-session sample size M.
pub const DEFAULT_MOST_RECENT_SESSIONS_M: usize = 500;

/// Default neighborhood size K.
pub const DEFAULT_NEIGHBORHOOD_SIZE_K: usize = 500;

/// Default number of items to recommend N.
pub const DEFAULT_NUM_ITEMS_TO_RECOMMEND: usize = 21;

/// Default bound on the number of most recent evolving-session items
/// considered by a serving layer.
pub const DEFAULT_MAX_ITEMS_IN_SESSION: usize = 2;

pub struct ServerConfig {
    pub host: String,
    pub port: usize,
    pub num_workers: usize,
}

pub struct LogConfig {
    pub level: String,
}

pub struct DataConfig {
    pub training_data_path: String,
}

pub struct ModelConfig {
    pub m_most_recent_sessions: usize,
    pub neighborhood_size_k: usize,
    pub num_items_to_recommend: usize,
    pub max_items_in_session: usize,
}

pub struct LogicConfig {
    pub enable_business_logic: bool,
}

pub struct AppConfig {
    pub server: ServerConfig,
    pub log: LogConfig,
    pub data: DataConfig,
    pub model: ModelConfig,
    pub logic: LogicConfig,
}

impl Default for ModelConfig {
    /// The model defaults: M = 500, K = 500, N = 21.
    fn default() -> (r: Self)
        ensures
            r.m_most_recent_sessions == DEFAULT_MOST_RECENT_SESSIONS_M,
            r.neighborhood_size_k == DEFAULT_NEIGHBORHOOD_SIZE_K,
            r.num_items_to_recommend == DEFAULT_NUM_ITEMS_TO_RECOMMEND,
            r.max_items_in_session == DEFAULT_MAX_ITEMS_IN_SESSION,
    {
        ModelConfig {
            m_most_recent_sessions: DEFAULT_MOST_RECENT_SESSIONS_M,
            neighborhood_size_k: DEFAULT_NEIGHBORHOOD_SIZE_K,
            num_items_to_recommend: DEFAULT_NUM_ITEMS_TO_RECOMMEND,
            max_items_in_session: DEFAULT_MAX_ITEMS_IN_SESSION,
        }
    }
}

impl Default for LogicConfig {
    /// The business-rule filter is off unless configured on.
    fn default() -> (r: Self)
        ensures
            !r.enable_business_logic,
    {
        LogicConfig { enable_business_logic: false }
    }
}

} // verus!
