use m_cc::config::Config;

#[test]
fn default_configuration() {
    let c = Config::get_default_values();
    assert_eq!(c.runtime.worker_threads, 4);
    assert_eq!(c.writer.max_batch_commands, 65536);
    assert_eq!(c.writer.flush_bytes, 33554432);
    assert_eq!(c.writer.flush_interval_ms, 200);
    assert_eq!(c.storage.data_dir, "./m-cc/data");
    assert_eq!(c.server.address, "0.0.0.0");
    assert_eq!(c.server.port, 3000);
}
