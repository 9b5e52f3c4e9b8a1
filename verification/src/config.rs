//! Runtime configuration and its defaults.

use vstd::prelude::*;

verus! {

/// Where the server listens.
pub struct ServerConfig {
    pub address: String,
    pub port: u16,
}

/// How many worker threads the runtime uses.
pub struct RuntimeConfig {
    pub worker_threads: u32,
}

/// When a log writer writes and flushes: at most `max_batch_commands`
/// commands are gathered into one write; the file is flushed once
/// `flush_bytes` bytes were written since the last flush, or once
/// `flush_interval_ms` milliseconds passed since it.
#[derive(Clone, Copy)]
pub struct WriterConfig {
    pub max_batch_commands: usize,
    pub flush_bytes: usize,
    pub flush_interval_ms: u64,
}

/// Where topic logs are stored.
pub struct StorageConfig {
    pub data_dir: String,
}

/// The whole configuration.
pub struct Config {
    pub server: ServerConfig,
    pub storage: StorageConfig,
    pub writer: WriterConfig,
    pub runtime: RuntimeConfig,
}

/// The configuration that request handlers can see.
pub struct AppConfig {
    pub runtime: RuntimeConfig,
}

impl Config {
    /// The configuration used when no file gives one: 4 worker threads;
    /// batches of at most 65536 commands, flushed every 33554432 bytes
    /// (32 MiB) or every 200 ms; data under `./m-cc/data`; listening on
    /// `0.0.0.0:3000`.
    pub fn get_default_values() -> (c: Config)
        ensures
            c.runtime.worker_threads == 4,
            c.writer.max_batch_commands == 65536,
            c.writer.flush_bytes == 33554432,
            c.writer.flush_interval_ms == 200,
            c.storage.data_dir@ == "./m-cc/data"@,
            c.server.address@ == "0.0.0.0"@,
            c.server.port == 3000,
    {
        let runtime = RuntimeConfig { worker_threads: 4 };

        let writer = WriterConfig { max_batch_commands: 65536, flush_bytes: 33554432, flush_interval_ms: 200 };

        let storage = StorageConfig { data_dir: "./m-cc/data".to_string() };

        let server = ServerConfig { address: "0.0.0.0".to_string(), port: 3000 };

        Config { server, storage, writer, runtime }
    }
}

} // verus!
