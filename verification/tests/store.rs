use docker_metrics_exporter::decode::{Field, ParseError};
use docker_metrics_exporter::stat::{parse_stat, DockerMetrics, DockerStat};
use docker_metrics_exporter::store::Metrics;

fn stat(name: &str, cpu: &str, mem: &str, net: &str, block: &str) -> DockerStat {
    DockerStat {
        name: name.to_string(),
        cpu_perc: cpu.to_string(),
        mem_usage: mem.to_string(),
        net_io: net.to_string(),
        block_io: block.to_string(),
    }
}

fn web_metrics() -> DockerMetrics {
    DockerMetrics {
        cpu_percent: "5.00".to_string(),
        mem_usage: 10485760,
        mem_limit: 104857600,
        net_input: 1024,
        net_output: 2048,
        block_read: 0,
        block_write: 0,
    }
}

const WEB: &str = r#"{"Name":"web","CPUPerc":"5.00%","MemUsage":"10MiB / 100MiB","NetIO":"1kB / 2kB","BlockIO":"0B / 0B"}"#;

#[test]
fn figures_of_a_sample() {
    let m = parse_stat(&stat("web", "5.00%", "10MiB / 100MiB", "1kB / 2kB", "0B / 0B"));
    assert_eq!(m, web_metrics());
}

#[test]
fn field_that_cannot_be_read_is_zero_and_the_rest_is_read() {
    let m = parse_stat(&stat("web", "n/a", "-- / 100MiB", "1,5kB", "7B / oops"));
    assert_eq!(m.cpu_percent, "0");
    assert_eq!(m.mem_usage, 0);
    assert_eq!(m.mem_limit, 104857600);
    assert_eq!(m.net_input, 1536);
    assert_eq!(m.net_output, 0);
    assert_eq!(m.block_read, 7);
    assert_eq!(m.block_write, 0);
}

#[test]
fn new_store_is_empty() {
    let store = Metrics::new();
    assert_eq!(store.len(), 0);
    assert!(store.snapshot().is_empty());
    assert!(store.get("web").is_none());
}

#[test]
fn line_from_end_to_end() {
    let mut store = Metrics::new();
    assert_eq!(store.ingest(WEB), Ok(()));
    let kept = store.get("web").unwrap();
    assert_eq!(kept.cpu_percent.parse::<f64>().unwrap(), 5.0);
    assert_eq!(kept.mem_usage, 10485760);
    assert_eq!(kept.mem_limit, 104857600);
    assert_eq!(kept.net_input, 1024);
    assert_eq!(kept.net_output, 2048);
    assert_eq!(kept.block_read, 0);
    assert_eq!(kept.block_write, 0);
    assert_eq!(store.len(), 1);
}

#[test]
fn line_without_name_changes_nothing_and_the_next_is_read() {
    let mut store = Metrics::new();
    store.update(&stat("db", "1.00%", "1MiB / 2MiB", "3B / 4B", "5B / 6B"));
    let before = store.snapshot();
    let no_name = r#"{"CPUPerc":"9.00%","MemUsage":"9MiB / 9MiB","NetIO":"9kB / 9kB","BlockIO":"9B / 9B"}"#;
    assert_eq!(store.ingest(no_name), Err(ParseError::Missing(Field::Name)));
    assert_eq!(store.snapshot(), before);
    assert_eq!(store.ingest("garbage"), Err(ParseError::Syntax));
    assert_eq!(store.snapshot(), before);
    assert_eq!(store.ingest(WEB), Ok(()));
    assert_eq!(store.len(), 2);
    assert_eq!(store.get("web"), Some(&web_metrics()));
    assert_eq!(store.get("db"), Some(&before[0].1));
}

#[test]
fn second_sample_under_a_name_replaces_the_first_whole() {
    let mut store = Metrics::new();
    store.update(&stat("web", "50.00%", "1GiB / 2GiB", "7MiB / 8MiB", "9kB / 10kB"));
    store.update(&stat("web", "bogus", "--", "1B", ""));
    let kept = store.get("web").unwrap();
    assert_eq!(
        kept,
        &DockerMetrics {
            cpu_percent: "0".to_string(),
            mem_usage: 0,
            mem_limit: 0,
            net_input: 1,
            net_output: 0,
            block_read: 0,
            block_write: 0,
        }
    );
    assert_eq!(store.len(), 1);
}

#[test]
fn second_line_under_a_name_replaces_the_first() {
    let mut store = Metrics::new();
    let first = r#"{"Name":"web","CPUPerc":"50.00%","MemUsage":"1GiB / 2GiB","NetIO":"7MiB / 8MiB","BlockIO":"9kB / 10kB"}"#;
    assert_eq!(store.ingest(first), Ok(()));
    assert_eq!(store.ingest(WEB), Ok(()));
    assert_eq!(store.get("web"), Some(&web_metrics()));
    assert_eq!(store.snapshot(), vec![("web".to_string(), web_metrics())]);
}

#[test]
fn sample_leaves_other_containers_as_they_are() {
    let mut store = Metrics::new();
    store.update(&stat("a", "1%", "1B / 2B", "3B / 4B", "5B / 6B"));
    store.update(&stat("b", "2%", "10B / 20B", "30B / 40B", "50B / 60B"));
    let a = store.get("a").unwrap().clone();
    store.update(&stat("b", "3%", "11B / 21B", "31B / 41B", "51B / 61B"));
    assert_eq!(store.get("a"), Some(&a));
    assert_eq!(store.get("b").unwrap().mem_usage, 11);
    assert!(store.get("c").is_none());
    assert!(store.get("").is_none());
}

#[test]
fn names_keep_the_order_in_which_they_were_first_seen() {
    let mut store = Metrics::new();
    for name in ["web", "db", "cache", "db", "web", "queue"] {
        store.update(&stat(name, "1%", "1B / 2B", "3B / 4B", "5B / 6B"));
    }
    let names: Vec<String> = store.snapshot().into_iter().map(|(name, _)| name).collect();
    assert_eq!(names, vec!["web", "db", "cache", "queue"]);
    assert_eq!(store.len(), 4);
}

#[test]
fn every_record_is_the_last_sample_under_its_name() {
    let samples = [
        stat("a", "1%", "1B / 2B", "3B / 4B", "5B / 6B"),
        stat("b", "2%", "10B / 20B", "30B / 40B", "50B / 60B"),
        stat("a", "3%", "100B / 200B", "300B / 400B", "500B / 600B"),
        stat("c", "4%", "1kB / 2kB", "3kB / 4kB", "5kB / 6kB"),
        stat("b", "5%", "1MiB / 2MiB", "3MiB / 4MiB", "5MiB / 6MiB"),
    ];
    let mut store = Metrics::new();
    for (count, sample) in samples.iter().enumerate() {
        store.update(sample);
        for (name, kept) in store.snapshot() {
            let last = samples[..=count].iter().rev().find(|s| s.name == name).unwrap();
            assert_eq!(kept, parse_stat(last));
        }
    }
}

#[test]
fn names_are_told_apart_letter_for_letter() {
    let mut store = Metrics::new();
    store.update(&stat("web", "1%", "", "", ""));
    store.update(&stat("Web", "2%", "", "", ""));
    store.update(&stat("web ", "3%", "", "", ""));
    store.update(&stat("", "4%", "", "", ""));
    assert_eq!(store.len(), 4);
    assert_eq!(store.get("web").unwrap().cpu_percent, "1");
    assert_eq!(store.get("Web").unwrap().cpu_percent, "2");
    assert_eq!(store.get("web ").unwrap().cpu_percent, "3");
    assert_eq!(store.get("").unwrap().cpu_percent, "4");
}

#[test]
fn copies_are_equal_to_what_they_copy() {
    let s = stat("web", "5.00%", "10MiB / 100MiB", "1kB / 2kB", "0B / 0B");
    assert_eq!(s.clone(), s);
    assert_eq!(web_metrics().clone(), web_metrics());
}
