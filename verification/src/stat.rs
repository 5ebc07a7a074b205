//! One sample of a container's resource usage: as the runtime reports it, in
//! text, and as numbers.

use crate::parser::{pair_sizes, parse_io, parse_percent, percent_text};
use vstd::prelude::*;

verus! {

/// What the runtime reports of one container at one moment, field by field
/// as it wrote them.
#[derive(Debug, PartialEq, Eq)]
pub struct DockerStat {
    /// The container's name: the key under which its figures are kept.
    pub name: String,
    /// The share of processor time, such as `45.30%`.
    pub cpu_perc: String,
    /// Memory in use and its limit, such as `10MiB / 100MiB`.
    pub mem_usage: String,
    /// Bytes received and sent over the network, such as `1.2kB / 3.4kB`.
    pub net_io: String,
    /// Bytes read from and written to block devices, such as `0B / 0B`.
    pub block_io: String,
}

/// A `DockerStat` as contracts see it.
pub struct StatView {
    pub name: Seq<char>,
    pub cpu_perc: Seq<char>,
    pub mem_usage: Seq<char>,
    pub net_io: Seq<char>,
    pub block_io: Seq<char>,
}

impl View for DockerStat {
    type V = StatView;

    open spec fn view(&self) -> StatView {
        StatView {
            name: self.name@,
            cpu_perc: self.cpu_perc@,
            mem_usage: self.mem_usage@,
            net_io: self.net_io@,
            block_io: self.block_io@,
        }
    }
}

impl Clone for DockerStat {
    fn clone(&self) -> (r: Self)
        ensures
            r@ == self@,
    {
        DockerStat {
            name: self.name.clone(),
            cpu_perc: self.cpu_perc.clone(),
            mem_usage: self.mem_usage.clone(),
            net_io: self.net_io.clone(),
            block_io: self.block_io.clone(),
        }
    }
}

/// The figures of one sample. Sizes are in bytes. The share of processor
/// time is kept as the number literal that was read, in percent: this library
/// does no arithmetic on it.
#[derive(Debug, PartialEq, Eq)]
pub struct DockerMetrics {
    pub cpu_percent: String,
    pub mem_usage: u64,
    pub mem_limit: u64,
    pub net_input: u64,
    pub net_output: u64,
    pub block_read: u64,
    pub block_write: u64,
}

/// A `DockerMetrics` as contracts see it.
pub struct MetricsView {
    pub cpu_percent: Seq<char>,
    pub mem_usage: nat,
    pub mem_limit: nat,
    pub net_input: nat,
    pub net_output: nat,
    pub block_read: nat,
    pub block_write: nat,
}

impl View for DockerMetrics {
    type V = MetricsView;

    open spec fn view(&self) -> MetricsView {
        MetricsView {
            cpu_percent: self.cpu_percent@,
            mem_usage: self.mem_usage as nat,
            mem_limit: self.mem_limit as nat,
            net_input: self.net_input as nat,
            net_output: self.net_output as nat,
            block_read: self.block_read as nat,
            block_write: self.block_write as nat,
        }
    }
}

impl Clone for DockerMetrics {
    fn clone(&self) -> (r: Self)
        ensures
            r@ == self@,
    {
        DockerMetrics {
            cpu_percent: self.cpu_percent.clone(),
            mem_usage: self.mem_usage,
            mem_limit: self.mem_limit,
            net_input: self.net_input,
            net_output: self.net_output,
            block_read: self.block_read,
            block_write: self.block_write,
        }
    }
}

/// The figures that the sample `stat` stands for: each field read by its own
/// reader, whatever the others hold.
pub open spec fn normalized(stat: StatView) -> MetricsView {
    MetricsView {
        cpu_percent: percent_text(stat.cpu_perc),
        mem_usage: pair_sizes(stat.mem_usage).0,
        mem_limit: pair_sizes(stat.mem_usage).1,
        net_input: pair_sizes(stat.net_io).0,
        net_output: pair_sizes(stat.net_io).1,
        block_read: pair_sizes(stat.block_io).0,
        block_write: pair_sizes(stat.block_io).1,
    }
}

/// Turns the text of a sample into figures. A field that cannot be read
/// counts as nothing, and the others are read all the same.
pub fn parse_stat(stat: &DockerStat) -> (m: DockerMetrics)
    ensures
        m@ == normalized(stat@),
{
    let cpu_percent = parse_percent(stat.cpu_perc.as_str());
    let (mem_usage, mem_limit) = parse_io(stat.mem_usage.as_str());
    let (net_input, net_output) = parse_io(stat.net_io.as_str());
    let (block_read, block_write) = parse_io(stat.block_io.as_str());
    DockerMetrics {
        cpu_percent,
        mem_usage,
        mem_limit,
        net_input,
        net_output,
        block_read,
        block_write,
    }
}

} // verus!
