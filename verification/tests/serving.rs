//! What is asked of the store from outside, and what goes into it.

use kubeloupe::api;
use kubeloupe::api::{Params, QueryError, Span};
use kubeloupe::collect;
use kubeloupe::collect::{Images, PodCache, Refresh};
use kubeloupe::config;
use kubeloupe::config::{Config, ConfigError, Variables};
use kubeloupe::discovery;
use kubeloupe::discovery::ArgsError;
use kubeloupe::kube;
use kubeloupe::kube::{
    Container, ContainerStats, ContainerStatus, CpuStats, FsStats, List, MemoryStats, Metadata,
    NetworkStats, Node, NodeStats, NodeStatus, Pod, PodRef, PodSpec, PodStats, PodStatus, PvcRef,
    Resources, StatsSummary, VolumeStats,
};
use kubeloupe::promql::parser::ParseError;
use kubeloupe::promql::{eval, parser};
use kubeloupe::store::{labels, Store};
use kubeloupe::textmap::TextMap;

fn bits(v: f64) -> Option<u64> {
    Some(v.to_bits())
}

fn map(entries: &[(&str, &str)]) -> TextMap {
    let mut map = TextMap::new();
    for (k, v) in entries {
        map.insert(k.to_string(), v.to_string());
    }
    map
}

fn one(store: &Store, query: &str, t: i64) -> f64 {
    let expr = parser::parse(query).expect(query);
    let points = eval::eval(store, &expr, t).into_vector();
    assert_eq!(points.len(), 1, "{query}");
    f64::from_bits(points[0].1)
}

fn many(store: &Store, query: &str, t: i64) -> usize {
    let expr = parser::parse(query).expect(query);
    eval::eval(store, &expr, t).into_vector().len()
}

fn metadata(name: &str, namespace: &str) -> Metadata {
    Metadata {
        name: name.to_string(),
        namespace: namespace.to_string(),
    }
}

fn pod(name: &str, image: &str, run: &str) -> Pod {
    Pod {
        metadata: metadata(name, "app"),
        spec: PodSpec {
            node_name: "node-a".to_string(),
            containers: vec![Container {
                name: "api".to_string(),
                image: image.to_string(),
                resources: Resources {
                    requests: map(&[("cpu", "250m"), ("memory", "64Mi"), ("odd", "1x")]),
                    limits: map(&[("memory", "128Mi")]),
                },
            }],
        },
        status: PodStatus {
            container_statuses: vec![ContainerStatus {
                name: "api".to_string(),
                image: run.to_string(),
            }],
        },
    }
}

fn node(name: &str) -> Node {
    Node {
        metadata: metadata(name, ""),
        status: NodeStatus {
            capacity: map(&[("cpu", "4"), ("memory", "8Gi"), ("pods", "110")]),
            allocatable: map(&[("cpu", "3800m")]),
        },
    }
}

fn reported(pod: &str, container: &str) -> PodStats {
    PodStats {
        pod_ref: PodRef {
            name: pod.to_string(),
            namespace: "app".to_string(),
        },
        containers: vec![ContainerStats {
            name: container.to_string(),
            cpu: Some(CpuStats {
                usage_core_nano_seconds: bits(2.5e9),
            }),
            memory: Some(MemoryStats {
                available_bytes: None,
                working_set_bytes: None,
                usage_bytes: bits(77.0),
            }),
            rootfs: Some(FsStats {
                capacity_bytes: None,
                available_bytes: None,
                used_bytes: bits(30.0),
            }),
            logs: Some(FsStats {
                capacity_bytes: None,
                available_bytes: None,
                used_bytes: bits(12.0),
            }),
        }],
        network: Some(NetworkStats {
            rx_bytes: bits(5.0),
            tx_bytes: None,
        }),
        volume: vec![
            VolumeStats {
                used_bytes: bits(1.0),
                capacity_bytes: bits(9.0),
                pvc_ref: Some(PvcRef {
                    name: "data".to_string(),
                    namespace: "app".to_string(),
                }),
            },
            VolumeStats {
                used_bytes: bits(4.0),
                capacity_bytes: None,
                pvc_ref: None,
            },
        ],
    }
}

fn summary(pods: Vec<PodStats>) -> StatsSummary {
    StatsSummary {
        node: NodeStats {
            cpu: Some(CpuStats {
                usage_core_nano_seconds: bits(100e9),
            }),
            memory: Some(MemoryStats {
                available_bytes: bits(500.0),
                working_set_bytes: bits(1500.0),
                usage_bytes: bits(1700.0),
            }),
            fs: Some(FsStats {
                capacity_bytes: bits(100.0),
                available_bytes: bits(40.0),
                used_bytes: bits(60.0),
            }),
        },
        pods,
    }
}

fn scraped() -> (Store, PodCache) {
    let mut store = Store::new(86_400);
    let mut cache: Option<PodCache> = None;
    let pods = List {
        items: vec![pod("api-1", "asked:1", "run:1"), pod("api-2", "asked:2", "")],
    };
    assert_eq!(PodCache::refresh(&mut cache, 100, Some(pods)), Refresh::Fresh);
    let mut cache = cache.expect("a cache");
    let nodes = List {
        items: vec![node("node-a"), node("node-b")],
    };
    let stats = vec![
        Some(summary(vec![reported("api-1", "api"), reported("api-2", "api")])),
        None,
    ];
    collect::collect(&mut store, 100, &mut cache, &nodes, &stats);
    (store, cache)
}

#[test]
fn a_scrape_feeds_every_series_that_is_asked_for() {
    let (store, cache) = scraped();
    for (query, want) in [
        ("up{instance=\"node-a\",job=\"kubeloupe\"}", 1.0),
        ("up{instance=\"node-b\"}", 0.0),
        ("kube_node_status_capacity{node=\"node-a\",resource=\"memory\",unit=\"byte\"}", 8.0 * 1024.0 * 1024.0 * 1024.0),
        ("kube_node_status_allocatable{node=\"node-b\",resource=\"cpu\",unit=\"core\"}", 3800.0 * 0.001),
        ("kube_pod_container_resource_requests{pod=\"api-1\",resource=\"cpu\",unit=\"core\",node=\"node-a\"}", 0.25),
        ("kube_pod_container_resource_limits{pod=\"api-2\",resource=\"memory\"}", 128.0 * 1024.0 * 1024.0),
        ("node_cpu_seconds_total{kubernetes_node=\"node-a\",instance=\"node-a\",node=\"node-a\",mode=\"user\"}", 100.0),
        ("node_filesystem_size_bytes{mountpoint=\"/\",node=\"node-a\"}", 100.0),
        ("node_filesystem_avail_bytes{mountpoint=\"/\"}", 40.0),
        ("kubelet_running_pods{instance=\"node-a\"}", 2.0),
        ("container_cpu_usage_seconds_total{pod=\"api-1\",image=\"run:1\",instance=\"node-a\"}", 2.5),
        ("container_memory_working_set_bytes{pod=\"api-2\",image=\"asked:2\"}", 77.0),
        ("container_fs_usage_bytes{pod=\"api-1\",container=\"api\"}", 42.0),
        ("container_network_receive_bytes_total{pod=\"api-1\",namespace=\"app\"}", 5.0),
        ("kubelet_volume_stats_used_bytes{persistentvolumeclaim=\"data\"}", 1.0),
        ("kubelet_volume_stats_capacity_bytes{namespace=\"app\"}", 9.0),
    ] {
        assert_eq!(one(&store, query, 100), want, "{query}");
    }
    // A quantity that does not parse, and a direction that is not reported.
    assert_eq!(many(&store, "kube_pod_container_resource_requests{resource=\"odd\"}", 100), 0);
    assert_eq!(many(&store, "container_network_transmit_bytes_total", 100), 0);
    assert!(!PodCache::needs_refresh(&Some(cache), 399, 300));
}

#[test]
fn memory_in_use_comes_out_as_the_working_set() {
    let (store, _) = scraped();
    let query = "sum(node_memory_MemTotal_bytes - (node_memory_MemFree_bytes + node_memory_Buffers_bytes + node_memory_Cached_bytes)) by (kubernetes_node)";
    assert_eq!(one(&store, query, 100), 1500.0);
}

#[test]
fn memory_that_is_not_reported_counts_as_zero() {
    let query = "node_memory_MemTotal_bytes - (node_memory_MemFree_bytes + node_memory_Buffers_bytes + node_memory_Cached_bytes)";
    for (available, working_set, usage, want) in [
        (bits(500.0), None, bits(1700.0), 1700.0),
        (None, bits(1500.0), bits(1700.0), 1500.0),
        (bits(500.0), None, None, 0.0),
    ] {
        let mut store = Store::new(86_400);
        let mut stats = summary(vec![]);
        stats.node.memory = Some(MemoryStats {
            available_bytes: available,
            working_set_bytes: working_set,
            usage_bytes: usage,
        });
        collect::collect_node_stats(&mut store, "node-a", &stats, &Images::of(&vec![]), 100);
        assert_eq!(one(&store, query, 100), want);
    }
}

#[test]
fn a_container_nobody_knows_has_an_image_and_forces_a_refresh() {
    let (mut store, mut cache) = scraped();
    let nodes = List {
        items: vec![node("node-a")],
    };
    let stats = vec![Some(summary(vec![reported("new-1", "api")]))];
    collect::collect(&mut store, 130, &mut cache, &nodes, &stats);
    assert_eq!(
        many(&store, "container_memory_working_set_bytes{pod=\"new-1\",image=\"unknown\"}", 130),
        1
    );
    let mut held = Some(cache);
    assert!(PodCache::needs_refresh(&held, 131, 300));
    // A refresh that fails keeps the list that is held.
    assert_eq!(PodCache::refresh(&mut held, 160, None), Refresh::Reused(60));
    assert!(held.is_some());
    let mut none: Option<PodCache> = None;
    assert_eq!(PodCache::refresh(&mut none, 160, None), Refresh::Missing);
    assert!(PodCache::needs_refresh(&none, 160, 300));
}

#[test]
fn a_pod_list_is_fetched_again_when_it_is_old_or_stale() {
    let mut cache = PodCache::for_test(1_000);
    assert!(!PodCache::needs_refresh(&cache, 1_299, 300));
    assert!(PodCache::needs_refresh(&cache, 1_300, 300));
    cache.as_mut().expect("a cache").mark_stale_for_test();
    assert!(PodCache::needs_refresh(&cache, 1_001, 300));
}

#[test]
fn a_stale_list_stays_stale_until_one_comes() {
    let (mut store, cache) = scraped();
    let mut held = Some(cache);
    let nodes = List {
        items: vec![node("node-a")],
    };
    let met = |pods: Vec<PodStats>| vec![Some(summary(pods))];
    let mut scrape = |held: &mut Option<PodCache>, now: i64, stats: &Vec<Option<StatsSummary>>| {
        let cache = held.as_mut().expect("a list");
        collect::collect(&mut store, now, cache, &nodes, stats);
    };
    scrape(&mut held, 130, &met(vec![reported("api-9", "api")]));
    assert!(PodCache::needs_refresh(&held, i64::MIN, i64::MAX));
    // None comes, and nothing unknown is met: still stale.
    assert_eq!(PodCache::refresh(&mut held, 160, None), Refresh::Reused(60));
    scrape(&mut held, 160, &met(vec![reported("api-1", "api")]));
    assert!(PodCache::needs_refresh(&held, 160, 300));
    let pods = List {
        items: vec![pod("api-9", "asked:9", "")],
    };
    assert_eq!(PodCache::refresh(&mut held, 190, Some(pods)), Refresh::Fresh);
    scrape(&mut held, 190, &met(vec![reported("api-9", "api")]));
    assert!(!PodCache::needs_refresh(&held, 489, 300));
    assert!(PodCache::needs_refresh(&held, 490, 300));
}

#[test]
fn the_image_that_runs_is_preferred_to_the_one_asked_for() {
    let images = Images::of(&vec![pod("api-1", "asked:1", "run:1"), pod("api-2", "asked:2", "")]);
    assert_eq!(images.known("app", "api-1", "api"), Some("run:1"));
    assert_eq!(images.known("app", "api-2", "api"), Some("asked:2"));
    assert_eq!(images.known("app", "api-3", "api"), None);
    let empty = Images::of(&vec![pod("api-1", "", "")]);
    assert_eq!(empty.known("app", "api-1", "api"), None);
    let mut store = Store::new(600);
    let n = collect::collect_node_stats(
        &mut store,
        "node-a",
        &summary(vec![reported("api-1", "api")]),
        &empty,
        0,
    );
    assert_eq!(n, 1);
}

#[test]
fn units_go_by_resource() {
    for (resource, unit) in [
        ("cpu", "core"),
        ("memory", "byte"),
        ("ephemeral-storage", "byte"),
        ("pods", "integer"),
    ] {
        assert_eq!(collect::unit_for(resource), unit);
    }
}

#[test]
fn quantities_come_with_every_suffix() {
    for (text, want) in [
        ("1500m", Some(1.5)),
        ("2k", Some(2e3)),
        ("3G", Some(3e9)),
        ("1T", Some(1e12)),
        ("1P", Some(1e15)),
        ("1E", Some(1e18)),
        ("1Mi", Some(1048576.0)),
        ("1Ti", Some(1099511627776.0)),
        ("1Pi", Some(1125899906842624.0)),
        ("1Ei", Some(1152921504606846976.0)),
        ("1e3", Some(1e3)),
        ("5E2", Some(500.0)),
        (" 7 ", Some(7.0)),
        ("-1", Some(-1.0)),
        ("1x", None),
        ("m", None),
    ] {
        assert_eq!(
            kube::parse_quantity(text).map(f64::from_bits),
            want,
            "{text:?}"
        );
    }
}

#[test]
fn addresses_with_colons_go_in_brackets() {
    assert_eq!(kube::base_url("10.0.0.1", "443"), "https://10.0.0.1:443");
    assert_eq!(kube::base_url("fd00::1", "6443"), "https://[fd00::1]:6443");
    assert_eq!(
        kube::stats_path("node-a"),
        "/api/v1/nodes/node-a/proxy/stats/summary"
    );
}

fn params(query: &str, start: Option<&str>, end: Option<&str>, step: Option<&str>) -> Params {
    Params {
        query: query.to_string(),
        start: start.map(str::to_string),
        end: end.map(str::to_string),
        step: step.map(str::to_string),
    }
}

fn filled() -> Store {
    let mut store = Store::new(86_400);
    for i in 0..11 {
        for name in ["m", "n"] {
            store.append(labels(name, &[("pod", "a")]), i * 60, (i as f64).to_bits());
        }
        store.append(labels("m", &[("pod", "b")]), i * 60, 1.0f64.to_bits());
    }
    store.append(labels("late", &[("node", "z")]), 900, 0);
    store
}

#[test]
fn a_range_has_defaults_and_limits() {
    let span = |start, end, step| api::span(&params("m", start, end, step), 10_000);
    assert!(matches!(
        span(None, None, None),
        Ok(s) if s == Span { start: 6_400, end: 10_000, step: 60 }
    ));
    assert!(matches!(
        span(Some("1.9"), Some("100"), Some("0")),
        Ok(s) if s == Span { start: 1, end: 100, step: 1 }
    ));
    // What does not parse is as good as absent.
    assert!(matches!(
        span(Some("x"), Some("y"), Some("z")),
        Ok(s) if s == Span { start: 6_400, end: 10_000, step: 60 }
    ));
    assert!(matches!(
        span(Some("2"), Some("1"), None),
        Err(QueryError::StartAfterEnd)
    ));
    assert!(matches!(
        span(Some("0"), Some("11001"), Some("1")),
        Err(QueryError::TooManyPoints)
    ));
    assert!(matches!(span(Some("0"), Some("11000"), Some("1")), Ok(_)));
    assert!(matches!(
        span(Some("-1e30"), Some("1e30"), Some("1")),
        Err(QueryError::TooManyPoints)
    ));
    assert_eq!(api::parse_time("1700000000.5"), Some(1_700_000_000));
    assert_eq!(api::parse_time(""), None);
}

#[test]
fn queries_are_answered_over_a_range_and_at_an_instant() {
    let store = filled();
    let p = params("sum(m)", Some("0"), Some("600"), Some("300"));
    let out = api::range(&store, &p, 0).expect("answers");
    assert_eq!(out.len(), 1);
    let values: Vec<(i64, f64)> = out[0]
        .values
        .iter()
        .map(|(t, v)| (*t, f64::from_bits(*v)))
        .collect();
    assert_eq!(values, [(0, 1.0), (300, 6.0), (600, 11.0)]);
    let expr = parser::parse("sum(m)").expect("parses");
    assert_eq!(api::range_over(&store, &expr, &p, 0).expect("answers").len(), 1);

    let (at, value) = api::instant(&store, &params("n", None, None, None), 600).expect("answers");
    assert_eq!(at, 600);
    assert_eq!(value.into_vector().len(), 1);
    let p = params("1 + 1", Some("42"), None, None);
    assert!(matches!(
        api::instant(&store, &p, 600),
        Ok((42, eval::Value::Scalar(v))) if v == 2.0f64.to_bits()
    ));
    assert!(matches!(
        api::instant(&store, &params("avg(m)", None, None, None), 600),
        Err(QueryError::Query(ParseError::TrailingTokens))
    ));
    assert!(matches!(
        api::range(&store, &params("m{", None, None, None), 600),
        Err(QueryError::Query(ParseError::ExpectedLabel(None)))
    ));
}

#[test]
fn a_query_string_is_undone_and_read() {
    let args = discovery::parse_args("match%5B%5D=m%7Bpod%3D%22a%22%7D&start=1.5&end=x&junk=1&match[]=n+")
        .expect("reads");
    assert_eq!(args.selectors.len(), 2);
    assert_eq!(args.selectors[0].name.as_deref(), Some("m"));
    assert_eq!(args.selectors[0].matchers[0].value, "a");
    assert_eq!(args.selectors[1].name.as_deref(), Some("n"));
    assert_eq!((args.start, args.end), (Some(1), None));
    assert!(matches!(
        discovery::parse_args("match[]=1%2B1"),
        Err(ArgsError::NotASelector(v)) if v == "1+1"
    ));
    assert!(matches!(
        discovery::parse_args("match[]=%7B"),
        Err(ArgsError::Query(ParseError::ExpectedLabel(None)))
    ));
    // The last start stands, even one that does not parse.
    let pairs = vec![
        ("start".to_string(), "5".to_string()),
        ("start".to_string(), "?".to_string()),
    ];
    assert_eq!(discovery::args_from(&pairs).expect("reads").start, None);
}

#[test]
fn labels_and_values_are_listed_in_order_and_once() {
    let store = filled();
    assert_eq!(discovery::labels(&store, "").expect("200"), ["__name__", "node", "pod"]);
    assert_eq!(discovery::values(&store, "pod", "").expect("200"), ["a", "b"]);
    assert_eq!(
        discovery::values(&store, "__name__", "").expect("200"),
        ["late", "m", "n"]
    );
    assert!(discovery::values(&store, "absent", "").expect("200").is_empty());
    let args = discovery::parse_args("match[]=n").expect("reads");
    assert_eq!(discovery::labels_of(&store, &args), ["__name__", "pod"]);
    assert_eq!(discovery::values_of(&store, "pod", &args), ["a"]);
}

#[test]
fn series_are_offered_once_and_only_within_the_window() {
    let store = filled();
    let count = |raw: &str| discovery::series(&store, raw).expect(raw).len();
    // Two selectors that overlap.
    assert_eq!(count("match[]=m&match[]=%7Bpod%3D%22a%22%7D"), 3);
    assert_eq!(count("match[]=m&match[]=m"), 2);
    assert_eq!(count("match[]=%7B__name__%3D~%22.*%22%7D"), 4);
    assert_eq!(count("match[]=%7B__name__%3D~%22.*%22%7D&start=601"), 1);
    assert_eq!(count("match[]=%7B__name__%3D~%22.*%22%7D&end=899"), 3);
    let args = discovery::parse_args("start=601").expect("reads");
    assert_eq!(discovery::matching(&store, &args).len(), 1);
    assert!(matches!(
        discovery::series_of(&store, &args),
        Err(ArgsError::NoSelector)
    ));
    // With a selector there is never more than without.
    let all = discovery::values(&store, "pod", "").expect("200");
    for one in discovery::values(&store, "pod", "match[]=n").expect("200") {
        assert!(all.contains(&one));
    }
}

#[test]
fn a_gap_over_the_window_is_no_sample_in_it() {
    let mut store = Store::new(86_400);
    store.append(labels("gap", &[]), 0, 0);
    store.append(labels("gap", &[]), 1_000, 0);
    // The same gap within a chunk that is sealed.
    for i in 0..60 {
        store.append(labels("sealed", &[]), i, 0);
    }
    for i in 0..61 {
        store.append(labels("sealed", &[]), 1_000 + i, 0);
    }
    assert_eq!(store.series_iter()[1].sealed_chunks().len(), 1);
    let names = |raw: &str| discovery::values(&store, "__name__", raw).expect(raw);
    assert!(names("start=400&end=600").is_empty());
    assert_eq!(names("start=0&end=0"), ["gap", "sealed"]);
    assert_eq!(names("start=59&end=59"), ["sealed"]);
    assert_eq!(names("start=400&end=1000"), ["gap", "sealed"]);
    assert_eq!(names("start=1001"), ["sealed"]);
    assert_eq!(names("end=999"), ["gap", "sealed"]);
    assert!(names("end=-1").is_empty());
    // Nothing lies in a window that ends before it starts.
    assert!(names("start=600&end=400").is_empty());
    assert!(names("start=1000&end=0").is_empty());
}

fn variables() -> Variables {
    Variables {
        scrape_interval: None,
        retention_hours: None,
        listen: None,
        snapshot_path: None,
        snapshot_interval: None,
    }
}

#[test]
fn unset_and_unreadable_variables_leave_the_defaults() {
    let mut vars = variables();
    let check = |vars: &Variables| {
        let config = Config::from_variables(vars).expect("a configuration");
        assert_eq!(config.scrape_interval, 30);
        assert_eq!(config.retention, 86_400);
        assert_eq!(config.listen, "0.0.0.0:9090");
        assert_eq!(config.snapshot_path, None);
        assert_eq!(config.snapshot_interval, 300);
    };
    check(&vars);
    vars.scrape_interval = Some("-5".to_string());
    vars.retention_hours = Some("a day".to_string());
    vars.snapshot_path = Some(" \t".to_string());
    vars.snapshot_interval = Some("1.5".to_string());
    check(&vars);
}

#[test]
fn variables_are_kept_to_at_least_one() {
    let mut vars = variables();
    vars.scrape_interval = Some("0".to_string());
    vars.retention_hours = Some("-3".to_string());
    vars.listen = Some("[::]:80".to_string());
    vars.snapshot_path = Some("/data/snapshot.bin".to_string());
    vars.snapshot_interval = Some("0".to_string());
    let config = Config::from_variables(&vars).expect("a configuration");
    assert_eq!(config.scrape_interval, 1);
    assert_eq!(config.retention, 3_600);
    assert_eq!(config.listen, "[::]:80");
    assert_eq!(config.snapshot_path.as_deref(), Some("/data/snapshot.bin"));
    assert_eq!(config.snapshot_interval, 1);
    vars.retention_hours = Some("9223372036854775807".to_string());
    assert!(matches!(
        Config::from_variables(&vars),
        Err(ConfigError::RetentionTooLong(i64::MAX))
    ));
    assert!(config::snapshot_due(300, 0, 300));
    assert!(!config::snapshot_due(299, 0, 300));
}

#[test]
fn whole_values_are_rendered_as_integers() {
    for (value, want) in [
        (0.0, Some("0")),
        (-0.0, Some("0")),
        (12.0, Some("12")),
        (-1500.0, Some("-1500")),
        (999_999_999_999_999.0, Some("999999999999999")),
        (1e15, None),
        (0.5, None),
        (f64::NAN, None),
        (f64::INFINITY, None),
    ] {
        assert_eq!(
            api::format_value(f64::to_bits(value)).as_deref(),
            want,
            "{value}"
        );
    }
}
