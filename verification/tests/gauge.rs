use docker_metrics_exporter::gauge::{label, Gauge};
use docker_metrics_exporter::stat::DockerMetrics;

#[test]
fn gauges_in_order() {
    assert_eq!(
        Gauge::all(),
        [
            Gauge::CpuPercent,
            Gauge::MemUsage,
            Gauge::MemLimit,
            Gauge::NetInput,
            Gauge::NetOutput,
            Gauge::BlockRead,
            Gauge::BlockWrite,
        ]
    );
}

#[test]
fn gauge_names() {
    let names: Vec<&str> = Gauge::all().iter().map(|g| g.name()).collect();
    assert_eq!(
        names,
        [
            "docker_cpu_percent",
            "docker_mem_usage_bytes",
            "docker_mem_limit_bytes",
            "docker_net_input_bytes",
            "docker_net_output_bytes",
            "docker_block_read_bytes",
            "docker_block_write_bytes",
        ]
    );
    assert_eq!(label(), "name");
}

#[test]
fn gauge_help() {
    let help: Vec<&str> = Gauge::all().iter().map(|g| g.help()).collect();
    assert_eq!(
        help,
        [
            "CPU usage %",
            "Memory used",
            "Memory limit",
            "Network In",
            "Network Out",
            "Block I/O Read",
            "Block I/O Write",
        ]
    );
}

#[test]
fn figure_of_each_gauge() {
    let m = DockerMetrics {
        cpu_percent: "5.00".to_string(),
        mem_usage: 1,
        mem_limit: 2,
        net_input: 3,
        net_output: 4,
        block_read: 5,
        block_write: 6,
    };
    assert_eq!(m.bytes(Gauge::CpuPercent), None);
    assert_eq!(m.bytes(Gauge::MemUsage), Some(1));
    assert_eq!(m.bytes(Gauge::MemLimit), Some(2));
    assert_eq!(m.bytes(Gauge::NetInput), Some(3));
    assert_eq!(m.bytes(Gauge::NetOutput), Some(4));
    assert_eq!(m.bytes(Gauge::BlockRead), Some(5));
    assert_eq!(m.bytes(Gauge::BlockWrite), Some(6));
}
