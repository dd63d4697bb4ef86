use vstd::prelude::*;

verus! {

/// Size past which the writer moves to a new log file: 1 MiB.
pub const DEFAULT_MAX_FILE_SIZE: u32 = 1024 * 1024;

/// Number of log files past which the oldest are reclaimed.
pub const DEFAULT_MAX_FILE_NUM: u32 = 10;

/// Settings of a store.
#[derive(Clone, Debug)]
pub struct Config {
    /// Directory holding the log and side-car files.
    pub workspace: String,
    /// Size past which the writer moves to a new log file.
    pub max_file_size: u32,
    /// Number of log files past which the oldest are reclaimed.
    pub max_file_num: u32,
}

impl Config {
    /// The default settings for a store in `workspace`.
    pub fn new(workspace: String) -> (r: Config)
        ensures
            r.workspace@ == workspace@,
            r.max_file_size == DEFAULT_MAX_FILE_SIZE,
            r.max_file_num == DEFAULT_MAX_FILE_NUM,
    {
        Config { workspace, max_file_size: DEFAULT_MAX_FILE_SIZE, max_file_num: DEFAULT_MAX_FILE_NUM }
    }
}

} // verus!
