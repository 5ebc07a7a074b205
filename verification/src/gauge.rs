//! The gauges under which the figures of a container are published.

use crate::stat::{DockerMetrics, MetricsView};
use vstd::prelude::*;

verus! {

/// One gauge for each figure of a sample.
#[derive(Clone, Copy, PartialEq, Eq, Structural, Debug)]
pub enum Gauge {
    CpuPercent,
    MemUsage,
    MemLimit,
    NetInput,
    NetOutput,
    BlockRead,
    BlockWrite,
}

/// The label that tells the containers of one gauge apart: its value is the
/// container's name.
pub open spec fn label_text() -> Seq<char> {
    "name"@
}

/// The label that tells the containers of one gauge apart.
pub fn label() -> (r: &'static str)
    ensures
        r@ == label_text(),
{
    "name"
}

impl Gauge {
    /// The name under which the gauge is published.
    pub open spec fn name_text(self) -> Seq<char> {
        match self {
            Gauge::CpuPercent => "docker_cpu_percent"@,
            Gauge::MemUsage => "docker_mem_usage_bytes"@,
            Gauge::MemLimit => "docker_mem_limit_bytes"@,
            Gauge::NetInput => "docker_net_input_bytes"@,
            Gauge::NetOutput => "docker_net_output_bytes"@,
            Gauge::BlockRead => "docker_block_read_bytes"@,
            Gauge::BlockWrite => "docker_block_write_bytes"@,
        }
    }

    /// The line of help that is published with the gauge.
    pub open spec fn help_text(self) -> Seq<char> {
        match self {
            Gauge::CpuPercent => "CPU usage %"@,
            Gauge::MemUsage => "Memory used"@,
            Gauge::MemLimit => "Memory limit"@,
            Gauge::NetInput => "Network In"@,
            Gauge::NetOutput => "Network Out"@,
            Gauge::BlockRead => "Block I/O Read"@,
            Gauge::BlockWrite => "Block I/O Write"@,
        }
    }

    /// The figure of `metrics` that the gauge shows, where it is a count of
    /// bytes; `None` for the share of processor time, which is no count.
    pub open spec fn bytes_of(self, metrics: MetricsView) -> Option<nat> {
        match self {
            Gauge::CpuPercent => None,
            Gauge::MemUsage => Some(metrics.mem_usage),
            Gauge::MemLimit => Some(metrics.mem_limit),
            Gauge::NetInput => Some(metrics.net_input),
            Gauge::NetOutput => Some(metrics.net_output),
            Gauge::BlockRead => Some(metrics.block_read),
            Gauge::BlockWrite => Some(metrics.block_write),
        }
    }

    /// The name under which the gauge is published.
    pub fn name(self) -> (r: &'static str)
        ensures
            r@ == self.name_text(),
    {
        match self {
            Gauge::CpuPercent => "docker_cpu_percent",
            Gauge::MemUsage => "docker_mem_usage_bytes",
            Gauge::MemLimit => "docker_mem_limit_bytes",
            Gauge::NetInput => "docker_net_input_bytes",
            Gauge::NetOutput => "docker_net_output_bytes",
            Gauge::BlockRead => "docker_block_read_bytes",
            Gauge::BlockWrite => "docker_block_write_bytes",
        }
    }

    /// The line of help that is published with the gauge.
    pub fn help(self) -> (r: &'static str)
        ensures
            r@ == self.help_text(),
    {
        match self {
            Gauge::CpuPercent => "CPU usage %",
            Gauge::MemUsage => "Memory used",
            Gauge::MemLimit => "Memory limit",
            Gauge::NetInput => "Network In",
            Gauge::NetOutput => "Network Out",
            Gauge::BlockRead => "Block I/O Read",
            Gauge::BlockWrite => "Block I/O Write",
        }
    }

    /// All gauges, in the order in which they are published.
    pub fn all() -> (r: [Gauge; 7])
        ensures
            r@ == seq![
                Gauge::CpuPercent,
                Gauge::MemUsage,
                Gauge::MemLimit,
                Gauge::NetInput,
                Gauge::NetOutput,
                Gauge::BlockRead,
                Gauge::BlockWrite,
            ],
    {
        [
            Gauge::CpuPercent,
            Gauge::MemUsage,
            Gauge::MemLimit,
            Gauge::NetInput,
            Gauge::NetOutput,
            Gauge::BlockRead,
            Gauge::BlockWrite,
        ]
    }
}

impl DockerMetrics {
    /// The figure that `gauge` shows, where it is a count of bytes; `None`
    /// for the share of processor time, which is read from `cpu_percent`.
    pub fn bytes(&self, gauge: Gauge) -> (r: Option<u64>)
        ensures
            match r {
                Some(n) => gauge.bytes_of(self@) == Some(n as nat),
                None => gauge.bytes_of(self@) is None,
            },
    {
        match gauge {
            Gauge::CpuPercent => None,
            Gauge::MemUsage => Some(self.mem_usage),
            Gauge::MemLimit => Some(self.mem_limit),
            Gauge::NetInput => Some(self.net_input),
            Gauge::NetOutput => Some(self.net_output),
            Gauge::BlockRead => Some(self.block_read),
            Gauge::BlockWrite => Some(self.block_write),
        }
    }
}

} // verus!
