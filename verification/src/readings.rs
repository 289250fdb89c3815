//! What a scrape says: which number is reported under which name and
//! labels, for every node, pod, container and volume.

use crate::collect::{
    after_asking, after_scrape, all_reported_points, all_usage_points, all_volume_points, asked_images,
    container_points, cpu_points, fed, fs_points, image_in, images_of, known_image, memory_points, network_points,
    node_points, nodes_points, pod_points, pods_points, refresh_due, reported_points, run_images, scraped, shown_image,
    stats_points, status_points, unit_of, unknown_images, unknown_in, unknown_on, up_point, usage_points,
    volume_points, CacheView, Image, Point,
};
use crate::double;
use crate::keyed;
use crate::kube;
use crate::kube::{
    Container, ContainerStats, ContainerStatus, CpuStats, FsStats, MemoryStats, Node, NodeStats, Pod, PodStats,
    StatsSummary, VolumeStats,
};
use crate::series;
use crate::store;
use crate::store::{Sample, StoreView};
use crate::textmap;
use crate::textmap::Entry;
use vstd::prelude::*;

verus! {

/// A number to be reported under a name and labels, if it is known.
pub struct Reading {
    pub name: Seq<char>,
    pub pairs: Seq<Entry>,
    pub number: Option<u64>,
}

/// Whether points report these readings: for each that is known one point,
/// in order, and no others.
pub open spec fn report(points: Seq<Point>, readings: Seq<Reading>) -> bool
    decreases readings.len(),
{
    if readings.len() == 0 {
        points.len() == 0
    } else {
        let last = readings.last();
        match last.number {
            Some(x) => points.len() > 0 && points.last().1 == x && store::carries(
                points.last().0,
                last.name,
                last.pairs,
            ) && report(points.drop_last(), readings.drop_last()),
            None => report(points, readings.drop_last()),
        }
    }
}

proof fn lemma_report_none(points: Seq<Point>)
    ensures
        points.len() == 0 ==> report(points, seq![]),
{
}

proof fn lemma_report_more(points: Seq<Point>, readings: Seq<Reading>, p: Point, r: Reading)
    requires
        report(points, readings),
    ensures
        r.number == Some(p.1) && store::carries(p.0, r.name, r.pairs) ==> report(
            points.push(p),
            readings.push(r),
        ),
        r.number is None ==> report(points, readings.push(r)),
{
    assert(readings.push(r).drop_last() =~= readings);
    assert(points.push(p).drop_last() =~= points);
}

/// The labels that are used differ from each other and from that of the
/// name.
proof fn lemma_label_names()
    ensures
        "__name__"@.len() == 8 && "__name__"@[0] == '_',
        "namespace"@.len() == 9 && "namespace"@[0] == 'n',
        "pod"@.len() == 3,
        "container"@.len() == 9 && "container"@[0] == 'c',
        "image"@.len() == 5,
        "instance"@.len() == 8 && "instance"@[0] == 'i',
        "node"@.len() == 4 && "node"@[0] == 'n',
        "kubernetes_node"@.len() == 15,
        "mode"@.len() == 4 && "mode"@[0] == 'm',
        "cpu"@.len() == 3,
        "mountpoint"@.len() == 10,
        "persistentvolumeclaim"@.len() == 21,
        "resource"@.len() == 8 && "resource"@[0] == 'r',
        "unit"@.len() == 4 && "unit"@[0] == 'u',
        "job"@.len() == 3,
{
    reveal_strlit("__name__");
    reveal_strlit("namespace");
    reveal_strlit("pod");
    reveal_strlit("container");
    reveal_strlit("image");
    reveal_strlit("instance");
    reveal_strlit("node");
    reveal_strlit("kubernetes_node");
    reveal_strlit("mode");
    reveal_strlit("cpu");
    reveal_strlit("mountpoint");
    reveal_strlit("persistentvolumeclaim");
    reveal_strlit("resource");
    reveal_strlit("unit");
    reveal_strlit("job");
}

/// The labels of a container's series.
pub open spec fn container_labels(
    node: Seq<char>,
    pod: PodStats,
    container: ContainerStats,
    image: Seq<char>,
) -> Seq<Entry> {
    seq![
        ("namespace"@, pod.pod_ref.namespace@),
        ("pod"@, pod.pod_ref.name@),
        ("container"@, container.name@),
        ("image"@, image),
        ("instance"@, node),
    ]
}

/// What a filesystem has in use, if that is reported.
pub open spec fn in_use(fs: Option<FsStats>) -> Option<u64> {
    if fs is Some {
        fs->0.used_bytes
    } else {
        None
    }
}

/// A number, or zero if there is none.
pub open spec fn number_or_zero(n: Option<u64>) -> u64 {
    if n is Some {
        n->0
    } else {
        double::of_int(0)
    }
}

/// How many seconds of processor time are reported, out of nanoseconds.
pub open spec fn cpu_seconds(cpu: Option<CpuStats>) -> Option<u64> {
    if cpu is Some && cpu->0.usage_core_nano_seconds is Some {
        Some(double::quotient(cpu->0.usage_core_nano_seconds->0, double::of_int(1_000_000_000)))
    } else {
        None
    }
}

/// The memory that counts: the working set, and only without one the usage.
pub open spec fn working_set(memory: Option<MemoryStats>) -> Option<u64> {
    if memory is None {
        None
    } else if memory->0.working_set_bytes is Some {
        memory->0.working_set_bytes
    } else {
        memory->0.usage_bytes
    }
}

/// A container reports its processor time in seconds, its working set, and
/// what its writable layer and its logs take up together.
pub proof fn law_container_readings(
    node: Seq<char>,
    pod: PodStats,
    container: ContainerStats,
    images: Seq<Image>,
)
    ensures
        ({
            let pairs = container_labels(
                node,
                pod,
                container,
                shown_image(images, pod.pod_ref.namespace@, pod.pod_ref.name@, container.name@),
            );
            let rootfs = in_use(container.rootfs);
            let logs = in_use(container.logs);
            report(
                usage_points(node, pod, container, images),
                seq![
                    Reading {
                        name: "container_cpu_usage_seconds_total"@,
                        pairs,
                        number: cpu_seconds(container.cpu),
                    },
                    Reading {
                        name: "container_memory_working_set_bytes"@,
                        pairs,
                        number: working_set(container.memory),
                    },
                    Reading {
                        name: "container_fs_usage_bytes"@,
                        pairs,
                        number: if rootfs is None && logs is None {
                            None
                        } else {
                            Some(double::sum(number_or_zero(rootfs), number_or_zero(logs)))
                        },
                    },
                ],
            )
        }),
{
    let image = shown_image(images, pod.pod_ref.namespace@, pod.pod_ref.name@, container.name@);
    let pairs = container_labels(node, pod, container, image);
    lemma_label_names();
    assert(store::keys_once(pairs));
    let rootfs = in_use(container.rootfs);
    let logs = in_use(container.logs);
    let r0 = Reading {
        name: "container_cpu_usage_seconds_total"@,
        pairs,
        number: cpu_seconds(container.cpu),
    };
    let r1 = Reading {
        name: "container_memory_working_set_bytes"@,
        pairs,
        number: working_set(container.memory),
    };
    let r2 = Reading {
        name: "container_fs_usage_bytes"@,
        pairs,
        number: if rootfs is None && logs is None {
            None
        } else {
            Some(double::sum(number_or_zero(rootfs), number_or_zero(logs)))
        },
    };
    let out = usage_points(node, pod, container, images);
    lemma_three(out, pairs, r0, r1, r2);
}

/// The points of up to three readings, as they stand one behind the other.
spec fn behind(points: Seq<Point>, r: Reading) -> Seq<Point> {
    match r.number {
        Some(x) => points.push((store::labelled(r.name, r.pairs), x)),
        None => points,
    }
}

proof fn lemma_behind(points: Seq<Point>, readings: Seq<Reading>, r: Reading)
    requires
        report(points, readings),
        store::keys_once(r.pairs),
    ensures
        report(behind(points, r), readings.push(r)),
{
    store::law_labels_carry_their_pairs(r.name, r.pairs);
    match r.number {
        Some(x) => lemma_report_more(points, readings, (store::labelled(r.name, r.pairs), x), r),
        None => lemma_report_more(points, readings, points[0], r),
    }
}

proof fn lemma_one(out: Seq<Point>, r: Reading)
    requires
        store::keys_once(r.pairs),
        out =~= behind(seq![], r),
    ensures
        report(out, seq![r]),
{
    lemma_report_none(seq![]);
    lemma_behind(seq![], seq![], r);
    assert(Seq::<Reading>::empty().push(r) =~= seq![r]);
}

proof fn lemma_two(out: Seq<Point>, a: Reading, b: Reading)
    requires
        store::keys_once(a.pairs),
        store::keys_once(b.pairs),
        out =~= behind(behind(seq![], a), b),
    ensures
        report(out, seq![a, b]),
{
    lemma_one(behind(seq![], a), a);
    lemma_behind(behind(seq![], a), seq![a], b);
    assert(seq![a].push(b) =~= seq![a, b]);
}

proof fn lemma_three(out: Seq<Point>, pairs: Seq<Entry>, a: Reading, b: Reading, c: Reading)
    requires
        store::keys_once(pairs),
        a.pairs == pairs,
        b.pairs == pairs,
        c.pairs == pairs,
        out =~= behind(behind(behind(seq![], a), b), c),
    ensures
        report(out, seq![a, b, c]),
{
    let two = behind(behind(seq![], a), b);
    lemma_two(two, a, b);
    lemma_behind(two, seq![a, b], c);
    assert(seq![a, b].push(c) =~= seq![a, b, c]);
}

/// A pod reports the bytes that it received and sent.
pub proof fn law_network_readings(node: Seq<char>, pod: PodStats)
    ensures
        ({
            let pairs = seq![
                ("namespace"@, pod.pod_ref.namespace@),
                ("pod"@, pod.pod_ref.name@),
                ("instance"@, node),
            ];
            report(
                network_points(node, pod),
                seq![
                    Reading {
                        name: "container_network_receive_bytes_total"@,
                        pairs,
                        number: if pod.network is Some {
                            pod.network->0.rx_bytes
                        } else {
                            None
                        },
                    },
                    Reading {
                        name: "container_network_transmit_bytes_total"@,
                        pairs,
                        number: if pod.network is Some {
                            pod.network->0.tx_bytes
                        } else {
                            None
                        },
                    },
                ],
            )
        }),
{
    let pairs = seq![
        ("namespace"@, pod.pod_ref.namespace@),
        ("pod"@, pod.pod_ref.name@),
        ("instance"@, node),
    ];
    lemma_label_names();
    assert(store::keys_once(pairs));
    lemma_two(
        network_points(node, pod),
        Reading {
            name: "container_network_receive_bytes_total"@,
            pairs,
            number: if pod.network is Some {
                pod.network->0.rx_bytes
            } else {
                None
            },
        },
        Reading {
            name: "container_network_transmit_bytes_total"@,
            pairs,
            number: if pod.network is Some {
                pod.network->0.tx_bytes
            } else {
                None
            },
        },
    );
}

/// A volume with a claim behind it reports what is used of it and what it
/// holds, under the claim's own name and namespace. One without reports
/// nothing.
pub proof fn law_volume_readings(volume: VolumeStats)
    ensures
        volume.pvc_ref is None ==> volume_points(volume).len() == 0,
        volume.pvc_ref matches Some(claim) ==> ({
            let pairs = seq![
                ("persistentvolumeclaim"@, claim.name@),
                ("namespace"@, claim.namespace@),
            ];
            report(
                volume_points(volume),
                seq![
                    Reading {
                        name: "kubelet_volume_stats_used_bytes"@,
                        pairs,
                        number: volume.used_bytes,
                    },
                    Reading {
                        name: "kubelet_volume_stats_capacity_bytes"@,
                        pairs,
                        number: volume.capacity_bytes,
                    },
                ],
            )
        }),
{
    if let Some(claim) = volume.pvc_ref {
        let pairs = seq![("persistentvolumeclaim"@, claim.name@), ("namespace"@, claim.namespace@)];
        lemma_label_names();
        assert(store::keys_once(pairs));
        lemma_two(
            volume_points(volume),
            Reading { name: "kubelet_volume_stats_used_bytes"@, pairs, number: volume.used_bytes },
            Reading {
                name: "kubelet_volume_stats_capacity_bytes"@,
                pairs,
                number: volume.capacity_bytes,
            },
        );
    }
}

/// The three names under which a node's series can be found.
pub open spec fn node_labels(node: Seq<char>) -> Seq<Entry> {
    seq![("kubernetes_node"@, node), ("instance"@, node), ("node"@, node)]
}

/// A node that reports memory reports four numbers: what is available as
/// free, that and the working set together as the total, and zero as buffers
/// and as cached.
pub proof fn law_node_memory_readings(node: Seq<char>, memory: Option<MemoryStats>)
    ensures
        ({
            let free = number_or_zero(
                if memory is Some {
                    memory->0.available_bytes
                } else {
                    None
                },
            );
            let known = |x: u64|
                if memory is Some {
                    Some(x)
                } else {
                    None
                };
            report(
                memory_points(node, memory),
                seq![
                    Reading {
                        name: "node_memory_MemTotal_bytes"@,
                        pairs: node_labels(node),
                        number: known(double::sum(free, number_or_zero(working_set(memory)))),
                    },
                    Reading {
                        name: "node_memory_MemFree_bytes"@,
                        pairs: node_labels(node),
                        number: known(free),
                    },
                    Reading {
                        name: "node_memory_Buffers_bytes"@,
                        pairs: node_labels(node),
                        number: known(double::of_int(0)),
                    },
                    Reading {
                        name: "node_memory_Cached_bytes"@,
                        pairs: node_labels(node),
                        number: known(double::of_int(0)),
                    },
                ],
            )
        }),
{
    let free = number_or_zero(
        if memory is Some {
            memory->0.available_bytes
        } else {
            None
        },
    );
    let known = |x: u64|
        if memory is Some {
            Some(x)
        } else {
            None
        };
    let pairs = node_labels(node);
    lemma_label_names();
    assert(store::keys_once(pairs));
    let a = Reading {
        name: "node_memory_MemTotal_bytes"@,
        pairs,
        number: known(double::sum(free, number_or_zero(working_set(memory)))),
    };
    let b = Reading { name: "node_memory_MemFree_bytes"@, pairs, number: known(free) };
    let c = Reading { name: "node_memory_Buffers_bytes"@, pairs, number: known(double::of_int(0)) };
    let d = Reading { name: "node_memory_Cached_bytes"@, pairs, number: known(double::of_int(0)) };
    let three = behind(behind(behind(seq![], a), b), c);
    lemma_three(three, pairs, a, b, c);
    lemma_behind(three, seq![a, b, c], d);
    assert(seq![a, b, c].push(d) =~= seq![a, b, c, d]);
    assert(memory_points(node, memory) =~= behind(three, d));
}

/// A node reports its processor time in seconds, under the one mode and the
/// one processor that are enough.
pub proof fn law_node_cpu_readings(node: Seq<char>, stats: NodeStats)
    ensures
        report(
            cpu_points(node, stats),
            seq![
                Reading {
                    name: "node_cpu_seconds_total"@,
                    pairs: node_labels(node) + seq![("mode"@, "user"@), ("cpu"@, "0"@)],
                    number: cpu_seconds(stats.cpu),
                },
            ],
        ),
{
    let pairs = node_labels(node) + seq![("mode"@, "user"@), ("cpu"@, "0"@)];
    lemma_label_names();
    assert(store::keys_once(pairs)) by {
        assert(pairs =~= seq![
            ("kubernetes_node"@, node),
            ("instance"@, node),
            ("node"@, node),
            ("mode"@, "user"@),
            ("cpu"@, "0"@),
        ]);
    }
    lemma_one(
        cpu_points(node, stats),
        Reading { name: "node_cpu_seconds_total"@, pairs, number: cpu_seconds(stats.cpu) },
    );
}

/// A node reports how large its root filesystem is and how much of it is
/// left.
pub proof fn law_node_filesystem_readings(node: Seq<char>, fs: Option<FsStats>)
    ensures
        ({
            let pairs = node_labels(node) + seq![("mountpoint"@, "/"@)];
            report(
                fs_points(node, fs),
                seq![
                    Reading {
                        name: "node_filesystem_size_bytes"@,
                        pairs,
                        number: if fs is Some {
                            fs->0.capacity_bytes
                        } else {
                            None
                        },
                    },
                    Reading {
                        name: "node_filesystem_avail_bytes"@,
                        pairs,
                        number: if fs is Some {
                            fs->0.available_bytes
                        } else {
                            None
                        },
                    },
                ],
            )
        }),
{
    let pairs = node_labels(node) + seq![("mountpoint"@, "/"@)];
    lemma_label_names();
    assert(store::keys_once(pairs)) by {
        assert(pairs =~= seq![
            ("kubernetes_node"@, node),
            ("instance"@, node),
            ("node"@, node),
            ("mountpoint"@, "/"@),
        ]);
    }
    lemma_two(
        fs_points(node, fs),
        Reading {
            name: "node_filesystem_size_bytes"@,
            pairs,
            number: if fs is Some {
                fs->0.capacity_bytes
            } else {
                None
            },
        },
        Reading {
            name: "node_filesystem_avail_bytes"@,
            pairs,
            number: if fs is Some {
                fs->0.available_bytes
            } else {
                None
            },
        },
    );
}

/// A node is up, with one, if it answered, and else with zero.
pub proof fn law_node_is_up_if_it_answers(node: Seq<char>, up: bool)
    ensures
        report(
            seq![up_point(node, up)],
            seq![
                Reading {
                    name: "up"@,
                    pairs: seq![("instance"@, node), ("job"@, "kubeloupe"@)],
                    number: Some(
                        if up {
                            double::of_int(1)
                        } else {
                            double::of_int(0)
                        },
                    ),
                },
            ],
        ),
{
    let pairs = seq![("instance"@, node), ("job"@, "kubeloupe"@)];
    lemma_label_names();
    assert(store::keys_once(pairs));
    lemma_one(
        seq![up_point(node, up)],
        Reading {
            name: "up"@,
            pairs,
            number: Some(
                if up {
                    double::of_int(1)
                } else {
                    double::of_int(0)
                },
            ),
        },
    );
}

/// Whether a resource is measured in a unit: processors in cores, memory and
/// storage in bytes, and everything else in whole numbers.
pub open spec fn measured_in(resource: Seq<char>, unit: Seq<char>) -> bool {
    if resource == "cpu"@ {
        unit == "core"@
    } else if resource == "memory"@ || resource == "storage"@ || resource == "ephemeral-storage"@ {
        unit == "byte"@
    } else {
        unit == "integer"@
    }
}

/// The quantities of a node are reported one by one, with the resource and
/// its unit. One that cannot be read is left out.
pub proof fn law_node_quantities(
    metric: Seq<char>,
    quantities: Seq<Entry>,
    node: Seq<char>,
) -> (readings: Seq<Reading>)
    ensures
        report(status_points(metric, quantities, node), readings),
        readings.len() == quantities.len(),
        forall|i: int|
            0 <= i < readings.len() ==> (#[trigger] readings[i]).name == metric && readings[i].number
                == kube::quantity(quantities[i].1) && exists|unit: Seq<char>| #[trigger]
                measured_in(quantities[i].0, unit) && readings[i].pairs == seq![
                    ("node"@, node),
                    ("resource"@, quantities[i].0),
                    ("unit"@, unit),
                ],
    decreases quantities.len(),
{
    if quantities.len() == 0 {
        seq![]
    } else {
        let init = quantities.drop_last();
        let (resource, amount) = quantities.last();
        let before = law_node_quantities(metric, init, node);
        let unit = unit_of(resource);
        let pairs = seq![("node"@, node), ("resource"@, resource), ("unit"@, unit)];
        let r = Reading { name: metric, pairs, number: kube::quantity(amount) };
        lemma_label_names();
        assert(store::keys_once(pairs));
        lemma_behind(status_points(metric, init, node), before, r);
        assert(status_points(metric, quantities, node) =~= behind(
            status_points(metric, init, node),
            r,
        ));
        let readings = before.push(r);
        assert(measured_in(resource, unit));
        assert forall|i: int| 0 <= i < readings.len() implies (#[trigger] readings[i]).name == metric
            && readings[i].number == kube::quantity(quantities[i].1) && exists|unit: Seq<char>| #[trigger]
            measured_in(quantities[i].0, unit) && readings[i].pairs == seq![
                ("node"@, node),
                ("resource"@, quantities[i].0),
                ("unit"@, unit),
            ] by {
            if i < before.len() {
                assert(readings[i] == before[i]);
                assert(init[i] == quantities[i]);
            }
        }
        readings
    }
}

/// The quantities of a container are reported one by one, with where it
/// runs, the resource and its unit. One that cannot be read is left out.
pub proof fn law_container_quantities(
    metric: Seq<char>,
    quantities: Seq<Entry>,
    pod: Pod,
    container: Container,
) -> (readings: Seq<Reading>)
    ensures
        report(container_points(metric, quantities, pod, container), readings),
        readings.len() == quantities.len(),
        forall|i: int|
            0 <= i < readings.len() ==> (#[trigger] readings[i]).name == metric && readings[i].number
                == kube::quantity(quantities[i].1) && exists|unit: Seq<char>| #[trigger]
                measured_in(quantities[i].0, unit) && readings[i].pairs == seq![
                    ("namespace"@, pod.metadata.namespace@),
                    ("pod"@, pod.metadata.name@),
                    ("container"@, container.name@),
                    ("node"@, pod.spec.node_name@),
                    ("resource"@, quantities[i].0),
                    ("unit"@, unit),
                ],
    decreases quantities.len(),
{
    if quantities.len() == 0 {
        seq![]
    } else {
        let init = quantities.drop_last();
        let (resource, amount) = quantities.last();
        let before = law_container_quantities(metric, init, pod, container);
        let unit = unit_of(resource);
        let pairs = seq![
            ("namespace"@, pod.metadata.namespace@),
            ("pod"@, pod.metadata.name@),
            ("container"@, container.name@),
            ("node"@, pod.spec.node_name@),
            ("resource"@, resource),
            ("unit"@, unit),
        ];
        let r = Reading { name: metric, pairs, number: kube::quantity(amount) };
        lemma_label_names();
        assert(store::keys_once(pairs));
        let fewer = container_points(metric, init, pod, container);
        lemma_behind(fewer, before, r);
        assert(container_points(metric, quantities, pod, container) =~= behind(fewer, r));
        let readings = before.push(r);
        assert(measured_in(resource, unit));
        assert forall|i: int| 0 <= i < readings.len() implies (#[trigger] readings[i]).name == metric
            && readings[i].number == kube::quantity(quantities[i].1) && exists|unit: Seq<char>| #[trigger]
            measured_in(quantities[i].0, unit) && readings[i].pairs == seq![
                ("namespace"@, pod.metadata.namespace@),
                ("pod"@, pod.metadata.name@),
                ("container"@, container.name@),
                ("node"@, pod.spec.node_name@),
                ("resource"@, quantities[i].0),
                ("unit"@, unit),
            ] by {
            if i < before.len() {
                assert(readings[i] == before[i]);
                assert(init[i] == quantities[i]);
            }
        }
        readings
    }
}

/// Whether a point has a name.
pub open spec fn called(p: Point, name: Seq<char>) -> bool {
    textmap::lookup(p.0, "__name__"@) == Some(name)
}

/// Where a working set is reported, that is what a container's memory is,
/// whatever its usage.
pub proof fn law_working_set_is_what_counts(
    node: Seq<char>,
    pod: PodStats,
    container: ContainerStats,
    images: Seq<Image>,
    memory: MemoryStats,
    w: u64,
)
    requires
        container.memory == Some(memory),
        memory.working_set_bytes == Some(w) || (memory.working_set_bytes is None && memory.usage_bytes
            == Some(w)),
    ensures
        ({
            let points = usage_points(node, pod, container, images);
            let name = "container_memory_working_set_bytes"@;
            &&& exists|i: int| 0 <= i < points.len() && called(#[trigger] points[i], name)
            &&& forall|i: int|
                0 <= i < points.len() && called(#[trigger] points[i], name) ==> points[i].1 == w
        }),
{
    reveal_strlit("container_cpu_usage_seconds_total");
    reveal_strlit("container_memory_working_set_bytes");
    reveal_strlit("container_fs_usage_bytes");
    assert("container_cpu_usage_seconds_total"@.len() == 33);
    assert("container_memory_working_set_bytes"@.len() == 34);
    assert("container_fs_usage_bytes"@.len() == 24);
    law_container_readings(node, pod, container, images);
    let points = usage_points(node, pod, container, images);
    let image = shown_image(images, pod.pod_ref.namespace@, pod.pod_ref.name@, container.name@);
    let pairs = container_labels(node, pod, container, image);
    let rootfs = in_use(container.rootfs);
    let logs = in_use(container.logs);
    let r0 = Reading {
        name: "container_cpu_usage_seconds_total"@,
        pairs,
        number: cpu_seconds(container.cpu),
    };
    let r1 = Reading {
        name: "container_memory_working_set_bytes"@,
        pairs,
        number: working_set(container.memory),
    };
    let r2 = Reading {
        name: "container_fs_usage_bytes"@,
        pairs,
        number: if rootfs is None && logs is None {
            None
        } else {
            Some(double::sum(number_or_zero(rootfs), number_or_zero(logs)))
        },
    };
    let three = seq![r0, r1, r2];
    assert(three.drop_last() =~= seq![r0, r1]);
    assert(seq![r0, r1].drop_last() =~= seq![r0]);
    assert(seq![r0].drop_last() =~= seq![]);
    assert(three.last() == r2 && seq![r0, r1].last() == r1 && seq![r0].last() == r0);
    assert(report(points, three));
    let two = if r2.number is Some {
        points.drop_last()
    } else {
        points
    };
    assert(report(two, seq![r0, r1]));
    assert(report(two.drop_last(), seq![r0]));
    let at = two.len() - 1;
    assert(two[at] == two.last() && points[at] == two[at]);
    assert forall|i: int|
        0 <= i < points.len() && called(
            #[trigger] points[i],
            "container_memory_working_set_bytes"@,
        ) implies points[i].1 == w by {
        if i > at {
            assert(points[i] == points.last());
        } else if i < at {
            let one = two.drop_last();
            assert(one[i] == points[i]);
            assert(report(one, seq![r0]));
            if r0.number is Some {
                assert(report(one.drop_last(), seq![]));
                assert(one[i] == one.last());
            } else {
                assert(report(one, seq![]));
            }
        }
    }
}

/// The image of a container in one list behind another: the last that is
/// given counts.
proof fn lemma_image_in(
    a: Seq<Image>,
    b: Seq<Image>,
    namespace: Seq<char>,
    pod: Seq<char>,
    container: Seq<char>,
)
    ensures
        image_in(a + b, namespace, pod, container) == (if image_in(b, namespace, pod, container) is Some {
            image_in(b, namespace, pod, container)
        } else {
            image_in(a, namespace, pod, container)
        }),
    decreases b.len(),
{
    if b.len() == 0 {
        assert(a + b =~= a);
    } else {
        assert((a + b).drop_last() =~= a + b.drop_last());
        assert((a + b).last() == b.last());
        lemma_image_in(a, b.drop_last(), namespace, pod, container);
    }
}

/// Whether a container's name stands once among some.
pub open spec fn asked_once(containers: Seq<Container>, j: int) -> bool {
    &&& 0 <= j < containers.len()
    &&& forall|k: int|
        0 <= k < containers.len() && k != j ==> (#[trigger] containers[k]).name@
            != containers[j].name@
}

proof fn lemma_asked(pod: Pod, containers: Seq<Container>, namespace: Seq<char>, name: Seq<char>, c: Seq<char>)
    ensures
        pod.metadata.namespace@ != namespace || pod.metadata.name@ != name ==> image_in(
            asked_images(pod, containers),
            namespace,
            name,
            c,
        ) is None,
        (forall|k: int| 0 <= k < containers.len() ==> (#[trigger] containers[k]).name@ != c) ==> image_in(
            asked_images(pod, containers),
            namespace,
            name,
            c,
        ) is None,
        forall|j: int| #[trigger]
            asked_once(containers, j) && containers[j].name@ == c && pod.metadata.namespace@ == namespace
                && pod.metadata.name@ == name ==> image_in(
                asked_images(pod, containers),
                namespace,
                name,
                c,
            ) == Some(containers[j].image@),
    decreases containers.len(),
{
    if containers.len() > 0 {
        let init = containers.drop_last();
        let n = containers.len() - 1;
        lemma_asked(pod, init, namespace, name, c);
        let all = asked_images(pod, containers);
        assert(all.drop_last() =~= asked_images(pod, init));
        assert(containers[n] == containers.last());
        if forall|k: int| 0 <= k < containers.len() ==> (#[trigger] containers[k]).name@ != c {
            assert forall|k: int| 0 <= k < init.len() implies (#[trigger] init[k]).name@ != c by {
                assert(init[k] == containers[k]);
            }
        }
        assert forall|j: int| #[trigger]
            asked_once(containers, j) && containers[j].name@ == c && pod.metadata.namespace@ == namespace
                && pod.metadata.name@ == name implies image_in(all, namespace, name, c) == Some(
            containers[j].image@,
        ) by {
            if j < n {
                assert(containers[n].name@ != c);
                assert(asked_once(init, j)) by {
                    assert forall|k: int| 0 <= k < init.len() && k != j implies (
                    #[trigger] init[k]).name@ != init[j].name@ by {
                        assert(init[k] == containers[k]);
                    }
                }
            }
        }
    }
}

/// Whether one status is the only one with a container's name that has an
/// image.
pub open spec fn running_once(statuses: Seq<ContainerStatus>, j: int) -> bool {
    &&& 0 <= j < statuses.len()
    &&& statuses[j].image@.len() > 0
    &&& forall|k: int|
        0 <= k < statuses.len() && k != j && (#[trigger] statuses[k]).image@.len() > 0 ==> statuses[k].name@
            != statuses[j].name@
}

/// Whether no status says what a container runs.
pub open spec fn not_running(statuses: Seq<ContainerStatus>, c: Seq<char>) -> bool {
    forall|k: int|
        0 <= k < statuses.len() ==> (#[trigger] statuses[k]).name@ != c || statuses[k].image@.len() == 0
}

proof fn lemma_running(
    pod: Pod,
    statuses: Seq<ContainerStatus>,
    namespace: Seq<char>,
    name: Seq<char>,
    c: Seq<char>,
)
    ensures
        pod.metadata.namespace@ != namespace || pod.metadata.name@ != name ==> image_in(
            run_images(pod, statuses),
            namespace,
            name,
            c,
        ) is None,
        not_running(statuses, c) ==> image_in(run_images(pod, statuses), namespace, name, c) is None,
        forall|j: int| #[trigger]
            running_once(statuses, j) && statuses[j].name@ == c && pod.metadata.namespace@ == namespace
                && pod.metadata.name@ == name ==> image_in(
                run_images(pod, statuses),
                namespace,
                name,
                c,
            ) == Some(statuses[j].image@),
    decreases statuses.len(),
{
    if statuses.len() > 0 {
        let init = statuses.drop_last();
        let n = statuses.len() - 1;
        lemma_running(pod, init, namespace, name, c);
        let all = run_images(pod, statuses);
        assert(statuses[n] == statuses.last());
        if statuses.last().image@.len() > 0 {
            assert(all.drop_last() =~= run_images(pod, init));
        }
        if not_running(statuses, c) {
            assert forall|k: int| 0 <= k < init.len() implies (#[trigger] init[k]).name@ != c
                || init[k].image@.len() == 0 by {
                assert(init[k] == statuses[k]);
            }
        }
        assert forall|j: int| #[trigger]
            running_once(statuses, j) && statuses[j].name@ == c && pod.metadata.namespace@ == namespace
                && pod.metadata.name@ == name implies image_in(all, namespace, name, c) == Some(
            statuses[j].image@,
        ) by {
            if j < n {
                assert(statuses[n].image@.len() > 0 ==> statuses[n].name@ != c);
                assert(running_once(init, j)) by {
                    assert forall|k: int|
                        0 <= k < init.len() && k != j && (#[trigger] init[k]).image@.len()
                            > 0 implies init[k].name@ != init[j].name@ by {
                        assert(init[k] == statuses[k]);
                    }
                }
            }
        }
    }
}

/// Whether no other of some pods has a pod's name and namespace.
pub open spec fn pod_once(pods: Seq<Pod>, i: int) -> bool {
    &&& 0 <= i < pods.len()
    &&& forall|k: int|
        0 <= k < pods.len() && k != i ==> (#[trigger] pods[k]).metadata.namespace@
            != pods[i].metadata.namespace@ || pods[k].metadata.name@ != pods[i].metadata.name@
}

proof fn lemma_images(pods: Seq<Pod>, i: int, c: Seq<char>)
    requires
        pod_once(pods, i),
    ensures
        ({
            let pod = pods[i];
            let own = asked_images(pod, pod.spec.containers@) + run_images(
                pod,
                pod.status.container_statuses@,
            );
            image_in(images_of(pods), pod.metadata.namespace@, pod.metadata.name@, c) == image_in(
                own,
                pod.metadata.namespace@,
                pod.metadata.name@,
                c,
            )
        }),
    decreases pods.len(),
{
    let namespace = pods[i].metadata.namespace@;
    let name = pods[i].metadata.name@;
    let init = pods.drop_last();
    let n = pods.len() - 1;
    let last = pods.last();
    let asked = asked_images(last, last.spec.containers@);
    let run = run_images(last, last.status.container_statuses@);
    assert(images_of(pods) =~= images_of(init) + (asked + run));
    lemma_image_in(images_of(init), asked + run, namespace, name, c);
    lemma_image_in(asked, run, namespace, name, c);
    if i < n {
        assert(pods[n].metadata.namespace@ != namespace || pods[n].metadata.name@ != name);
        lemma_asked(last, last.spec.containers@, namespace, name, c);
        lemma_running(last, last.status.container_statuses@, namespace, name, c);
        assert(pod_once(init, i)) by {
            assert forall|k: int| 0 <= k < init.len() && k != i implies (
            #[trigger] init[k]).metadata.namespace@ != init[i].metadata.namespace@
                || init[k].metadata.name@ != init[i].metadata.name@ by {
                assert(init[k] == pods[k]);
            }
        }
        lemma_images(init, i, c);
    } else {
        lemma_no_image(init, namespace, name, c);
    }
}

proof fn lemma_no_image(pods: Seq<Pod>, namespace: Seq<char>, name: Seq<char>, c: Seq<char>)
    requires
        forall|k: int|
            0 <= k < pods.len() ==> (#[trigger] pods[k]).metadata.namespace@ != namespace
                || pods[k].metadata.name@ != name,
    ensures
        image_in(images_of(pods), namespace, name, c) is None,
    decreases pods.len(),
{
    if pods.len() > 0 {
        let init = pods.drop_last();
        let last = pods.last();
        assert(pods[pods.len() - 1] == last);
        assert forall|k: int| 0 <= k < init.len() implies (#[trigger] init[k]).metadata.namespace@
            != namespace || init[k].metadata.name@ != name by {
            assert(init[k] == pods[k]);
        }
        lemma_no_image(init, namespace, name, c);
        let asked = asked_images(last, last.spec.containers@);
        let run = run_images(last, last.status.container_statuses@);
        lemma_asked(last, last.spec.containers@, namespace, name, c);
        lemma_running(last, last.status.container_statuses@, namespace, name, c);
        lemma_image_in(images_of(init) + asked, run, namespace, name, c);
        lemma_image_in(images_of(init), asked, namespace, name, c);
    }
}

/// A container's series carry the image that it is reported to run. Without
/// a report they carry the one that was asked for, and `unknown` where there
/// is none or the pod is not listed.
pub proof fn law_running_image_is_shown(pods: Seq<Pod>, i: int, c: Seq<char>, j: int)
    requires
        pod_once(pods, i),
    ensures
        ({
            let pod = pods[i];
            let containers = pod.spec.containers@;
            let statuses = pod.status.container_statuses@;
            let shown = shown_image(
                images_of(pods),
                pod.metadata.namespace@,
                pod.metadata.name@,
                c,
            );
            let known = known_image(
                images_of(pods),
                pod.metadata.namespace@,
                pod.metadata.name@,
                c,
            );
            &&& running_once(statuses, j) && statuses[j].name@ == c ==> shown == statuses[j].image@
                && known == Some(statuses[j].image@)
            &&& not_running(statuses, c) && asked_once(containers, j) && containers[j].name@ == c
                ==> (if containers[j].image@.len() > 0 {
                shown == containers[j].image@ && known == Some(containers[j].image@)
            } else {
                shown == "unknown"@ && known is None
            })
            &&& not_running(statuses, c) && (forall|k: int|
                0 <= k < containers.len() ==> (#[trigger] containers[k]).name@ != c) ==> shown
                == "unknown"@ && known is None
        }),
{
    let pod = pods[i];
    let namespace = pod.metadata.namespace@;
    let name = pod.metadata.name@;
    let asked = asked_images(pod, pod.spec.containers@);
    let run = run_images(pod, pod.status.container_statuses@);
    lemma_images(pods, i, c);
    lemma_image_in(asked, run, namespace, name, c);
    lemma_asked(pod, pod.spec.containers@, namespace, name, c);
    lemma_running(pod, pod.status.container_statuses@, namespace, name, c);
}

/// A container of a pod that is not listed carries `unknown` as its image.
pub proof fn law_unlisted_pods_have_no_image(
    pods: Seq<Pod>,
    namespace: Seq<char>,
    name: Seq<char>,
    c: Seq<char>,
)
    requires
        forall|k: int|
            0 <= k < pods.len() ==> (#[trigger] pods[k]).metadata.namespace@ != namespace
                || pods[k].metadata.name@ != name,
    ensures
        shown_image(images_of(pods), namespace, name, c) == "unknown"@,
        known_image(images_of(pods), namespace, name, c) is None,
{
    lemma_no_image(pods, namespace, name, c);
}

/// Whether one of two runs of points has a point.
proof fn lemma_either_has(a: Seq<Point>, b: Seq<Point>, p: Point)
    ensures
        (a + b).contains(p) <==> a.contains(p) || b.contains(p),
{
    let s = a + b;
    if a.contains(p) {
        let i = choose|i: int| 0 <= i < a.len() && a[i] == p;
        assert(s[i] == p);
    }
    if b.contains(p) {
        let i = choose|i: int| 0 <= i < b.len() && b[i] == p;
        assert(s[a.len() + i] == p);
    }
    if s.contains(p) {
        let i = choose|i: int| 0 <= i < s.len() && s[i] == p;
        if i < a.len() {
            assert(a[i] == p);
        } else {
            assert(b[i - a.len()] == p);
        }
    }
}

/// Whether a container of some reports a point.
pub open spec fn some_container_says(
    node: Seq<char>,
    pod: PodStats,
    containers: Seq<ContainerStats>,
    images: Seq<Image>,
    p: Point,
) -> bool {
    exists|i: int|
        0 <= i < containers.len() && usage_points(
            node,
            pod,
            #[trigger] containers[i],
            images,
        ).contains(p)
}

proof fn lemma_containers(
    node: Seq<char>,
    pod: PodStats,
    containers: Seq<ContainerStats>,
    images: Seq<Image>,
    p: Point,
)
    ensures
        all_usage_points(node, pod, containers, images).contains(p) <==> some_container_says(
            node,
            pod,
            containers,
            images,
            p,
        ),
    decreases containers.len(),
{
    if containers.len() > 0 {
        let init = containers.drop_last();
        let n = containers.len() - 1;
        lemma_containers(node, pod, init, images, p);
        lemma_either_has(
            all_usage_points(node, pod, init, images),
            usage_points(node, pod, containers.last(), images),
            p,
        );
        assert(containers[n] == containers.last());
        if some_container_says(node, pod, init, images, p) {
            let i = choose|i: int|
                0 <= i < init.len() && usage_points(node, pod, #[trigger] init[i], images).contains(p);
            assert(usage_points(node, pod, containers[i], images).contains(p));
        }
        if some_container_says(node, pod, containers, images, p) {
            let i = choose|i: int|
                0 <= i < containers.len() && usage_points(
                    node,
                    pod,
                    #[trigger] containers[i],
                    images,
                ).contains(p);
            if i < n {
                assert(usage_points(node, pod, init[i], images).contains(p));
            }
        }
    }
}

/// Whether a volume of some reports a point.
pub open spec fn some_volume_says(volumes: Seq<VolumeStats>, p: Point) -> bool {
    exists|i: int| 0 <= i < volumes.len() && volume_points(#[trigger] volumes[i]).contains(p)
}

proof fn lemma_volumes(volumes: Seq<VolumeStats>, p: Point)
    ensures
        all_volume_points(volumes).contains(p) <==> some_volume_says(volumes, p),
    decreases volumes.len(),
{
    if volumes.len() > 0 {
        let init = volumes.drop_last();
        let n = volumes.len() - 1;
        lemma_volumes(init, p);
        lemma_either_has(all_volume_points(init), volume_points(volumes.last()), p);
        assert(volumes[n] == volumes.last());
        if some_volume_says(init, p) {
            let i = choose|i: int| 0 <= i < init.len() && volume_points(#[trigger] init[i]).contains(p);
            assert(volume_points(volumes[i]).contains(p));
        }
        if some_volume_says(volumes, p) {
            let i = choose|i: int|
                0 <= i < volumes.len() && volume_points(#[trigger] volumes[i]).contains(p);
            if i < n {
                assert(volume_points(init[i]).contains(p));
            }
        }
    }
}

/// Whether a pod that is reported says a point: one of its containers does,
/// its network or one of its volumes.
pub open spec fn pod_says(node: Seq<char>, pod: PodStats, images: Seq<Image>, p: Point) -> bool {
    ||| some_container_says(node, pod, pod.containers@, images, p)
    ||| network_points(node, pod).contains(p)
    ||| some_volume_says(pod.volume@, p)
}

/// Whether one of some pods that are reported says a point.
pub open spec fn some_pod_says(node: Seq<char>, pods: Seq<PodStats>, images: Seq<Image>, p: Point) -> bool {
    exists|i: int| 0 <= i < pods.len() && pod_says(node, #[trigger] pods[i], images, p)
}

proof fn lemma_pods(node: Seq<char>, pods: Seq<PodStats>, images: Seq<Image>, p: Point)
    ensures
        all_reported_points(node, pods, images).contains(p) <==> some_pod_says(node, pods, images, p),
    decreases pods.len(),
{
    if pods.len() > 0 {
        let init = pods.drop_last();
        let n = pods.len() - 1;
        let last = pods.last();
        lemma_pods(node, init, images, p);
        lemma_either_has(
            all_reported_points(node, init, images),
            reported_points(node, last, images),
            p,
        );
        let a = all_usage_points(node, last, last.containers@, images);
        lemma_either_has(a + network_points(node, last), all_volume_points(last.volume@), p);
        lemma_either_has(a, network_points(node, last), p);
        lemma_containers(node, last, last.containers@, images, p);
        lemma_volumes(last.volume@, p);
        assert(pods[n] == last);
        if some_pod_says(node, init, images, p) {
            let i = choose|i: int| 0 <= i < init.len() && pod_says(node, #[trigger] init[i], images, p);
            assert(pod_says(node, pods[i], images, p));
        }
        if some_pod_says(node, pods, images, p) {
            let i = choose|i: int| 0 <= i < pods.len() && pod_says(node, #[trigger] pods[i], images, p);
            if i < n {
                assert(pod_says(node, init[i], images, p));
            }
        }
    }
}

/// Whether a point says how many pods a node runs.
pub open spec fn counts_pods(p: Point, node: Seq<char>, n: int) -> bool {
    p.1 == double::of_int(n) && store::carries(
        p.0,
        "kubelet_running_pods"@,
        seq![("instance"@, node)],
    )
}

/// What a kubelet reports is its node's memory, processor time and
/// filesystem, how many pods it runs, and what each of them says.
pub proof fn law_kubelet_reports(node: Seq<char>, stats: StatsSummary, images: Seq<Image>, p: Point)
    ensures
        stats_points(node, stats, images).contains(p) ==> memory_points(
            node,
            stats.node.memory,
        ).contains(p) || cpu_points(node, stats.node).contains(p) || fs_points(
            node,
            stats.node.fs,
        ).contains(p) || counts_pods(p, node, stats.pods@.len() as int) || some_pod_says(
            node,
            stats.pods@,
            images,
            p,
        ),
        memory_points(node, stats.node.memory).contains(p) || cpu_points(node, stats.node).contains(p)
            || fs_points(node, stats.node.fs).contains(p) || some_pod_says(
            node,
            stats.pods@,
            images,
            p,
        ) ==> stats_points(node, stats, images).contains(p),
        exists|q: Point| #[trigger]
            stats_points(node, stats, images).contains(q) && counts_pods(
                q,
                node,
                stats.pods@.len() as int,
            ),
{
    let a = memory_points(node, stats.node.memory);
    let b = cpu_points(node, stats.node);
    let c = fs_points(node, stats.node.fs);
    let pairs = seq![("instance"@, node)];
    let count = (
        store::labelled("kubelet_running_pods"@, pairs),
        double::of_int(stats.pods@.len() as int),
    );
    let d = seq![count];
    let e = all_reported_points(node, stats.pods@, images);
    lemma_label_names();
    assert(store::keys_once(pairs));
    store::law_labels_carry_their_pairs("kubelet_running_pods"@, pairs);
    assert(stats_points(node, stats, images) =~= a + b + c + d + e);
    lemma_either_has(a + b + c + d, e, p);
    lemma_either_has(a + b + c, d, p);
    lemma_either_has(a + b, c, p);
    lemma_either_has(a, b, p);
    lemma_pods(node, stats.pods@, images, p);
    assert(d[0] == count);
    assert(d.contains(count));
    lemma_either_has(a + b + c + d, e, count);
    lemma_either_has(a + b + c, d, count);
    assert(stats_points(node, stats, images).contains(count));
    if d.contains(p) {
        assert(p == count);
    }
}

/// Whether a point says something of a node: what it has or can allocate,
/// whether it answered, and what its kubelet reports if it did.
pub open spec fn node_says(
    node: Node,
    stats: Option<StatsSummary>,
    images: Seq<Image>,
    p: Point,
) -> bool {
    let name = node.metadata.name@;
    ||| status_points("kube_node_status_capacity"@, node.status.capacity@, name).contains(p)
    ||| status_points("kube_node_status_allocatable"@, node.status.allocatable@, name).contains(p)
    ||| p == up_point(name, stats is Some)
    ||| stats is Some && stats_points(name, stats->0, images).contains(p)
}

/// Whether a point says something of one of some nodes.
pub open spec fn some_node_says(
    nodes: Seq<Node>,
    stats: Seq<Option<StatsSummary>>,
    images: Seq<Image>,
    p: Point,
) -> bool {
    exists|i: int| 0 <= i < nodes.len() && node_says(#[trigger] nodes[i], stats[i], images, p)
}

proof fn lemma_nodes(
    nodes: Seq<Node>,
    stats: Seq<Option<StatsSummary>>,
    images: Seq<Image>,
    p: Point,
)
    ensures
        nodes_points(nodes, stats, images).contains(p) <==> some_node_says(nodes, stats, images, p),
    decreases nodes.len(),
{
    if nodes.len() > 0 {
        let init = nodes.drop_last();
        let n = nodes.len() - 1;
        let node = nodes[n];
        let name = node.metadata.name@;
        lemma_nodes(init, stats, images, p);
        let before = nodes_points(init, stats, images);
        let up = up_point(name, stats[n] is Some);
        let more = match stats[n] {
            Some(stats) => stats_points(name, stats, images).push(up_point(name, true)),
            None => seq![up_point(name, false)],
        };
        lemma_either_has(before + node_points(node), more, p);
        lemma_either_has(before, node_points(node), p);
        lemma_either_has(
            status_points("kube_node_status_capacity"@, node.status.capacity@, name),
            status_points("kube_node_status_allocatable"@, node.status.allocatable@, name),
            p,
        );
        assert(more.contains(p) <==> p == up || (stats[n] is Some && stats_points(
            name,
            stats[n]->0,
            images,
        ).contains(p))) by {
            match stats[n] {
                Some(s) => {
                    let all = stats_points(name, s, images);
                    lemma_either_has(all, seq![up], p);
                    assert(all.push(up) =~= all + seq![up]);
                    assert(seq![up].contains(p) <==> p == up) by {
                        assert(seq![up][0] == up);
                    }
                },
                None => {
                    assert(more[0] == up);
                },
            }
        }
        if some_node_says(init, stats, images, p) {
            let i = choose|i: int|
                0 <= i < init.len() && node_says(#[trigger] init[i], stats[i], images, p);
            assert(node_says(nodes[i], stats[i], images, p));
        }
        if some_node_says(nodes, stats, images, p) {
            let i = choose|i: int|
                0 <= i < nodes.len() && node_says(#[trigger] nodes[i], stats[i], images, p);
            if i < n {
                assert(node_says(init[i], stats[i], images, p));
            }
        }
    }
}

/// Whether a point says what one of a pod's containers requests or is
/// limited to.
pub open spec fn some_quantity_says(pod: Pod, containers: Seq<Container>, p: Point) -> bool {
    exists|i: int|
        0 <= i < containers.len() && (container_points(
            "kube_pod_container_resource_requests"@,
            (#[trigger] containers[i]).resources.requests@,
            pod,
            containers[i],
        ).contains(p) || container_points(
            "kube_pod_container_resource_limits"@,
            containers[i].resources.limits@,
            pod,
            containers[i],
        ).contains(p))
}

proof fn lemma_quantities(pod: Pod, containers: Seq<Container>, p: Point)
    ensures
        pod_points(pod, containers).contains(p) <==> some_quantity_says(pod, containers, p),
    decreases containers.len(),
{
    if containers.len() > 0 {
        let init = containers.drop_last();
        let n = containers.len() - 1;
        let last = containers.last();
        lemma_quantities(pod, init, p);
        let before = pod_points(pod, init);
        let requests = container_points(
            "kube_pod_container_resource_requests"@,
            last.resources.requests@,
            pod,
            last,
        );
        let limits = container_points(
            "kube_pod_container_resource_limits"@,
            last.resources.limits@,
            pod,
            last,
        );
        lemma_either_has(before + requests, limits, p);
        lemma_either_has(before, requests, p);
        assert(containers[n] == last);
        if some_quantity_says(pod, init, p) {
            let i = choose|i: int|
                0 <= i < init.len() && (container_points(
                    "kube_pod_container_resource_requests"@,
                    (#[trigger] init[i]).resources.requests@,
                    pod,
                    init[i],
                ).contains(p) || container_points(
                    "kube_pod_container_resource_limits"@,
                    init[i].resources.limits@,
                    pod,
                    init[i],
                ).contains(p));
            assert(containers[i] == init[i]);
        }
        if some_quantity_says(pod, containers, p) {
            let i = choose|i: int|
                0 <= i < containers.len() && (container_points(
                    "kube_pod_container_resource_requests"@,
                    (#[trigger] containers[i]).resources.requests@,
                    pod,
                    containers[i],
                ).contains(p) || container_points(
                    "kube_pod_container_resource_limits"@,
                    containers[i].resources.limits@,
                    pod,
                    containers[i],
                ).contains(p));
            if i < n {
                assert(init[i] == containers[i]);
            }
        }
    }
}

/// Whether a point says what a container of one of some pods requests or is
/// limited to.
pub open spec fn some_listed_pod_says(pods: Seq<Pod>, p: Point) -> bool {
    exists|i: int|
        0 <= i < pods.len() && some_quantity_says(
            #[trigger] pods[i],
            pods[i].spec.containers@,
            p,
        )
}

proof fn lemma_listed(pods: Seq<Pod>, p: Point)
    ensures
        pods_points(pods).contains(p) <==> some_listed_pod_says(pods, p),
    decreases pods.len(),
{
    if pods.len() > 0 {
        let init = pods.drop_last();
        let n = pods.len() - 1;
        let last = pods.last();
        lemma_listed(init, p);
        lemma_either_has(pods_points(init), pod_points(last, last.spec.containers@), p);
        lemma_quantities(last, last.spec.containers@, p);
        assert(pods[n] == last);
        if some_listed_pod_says(init, p) {
            let i = choose|i: int|
                0 <= i < init.len() && some_quantity_says(
                    #[trigger] init[i],
                    init[i].spec.containers@,
                    p,
                );
            assert(some_quantity_says(pods[i], pods[i].spec.containers@, p));
        }
        if some_listed_pod_says(pods, p) {
            let i = choose|i: int|
                0 <= i < pods.len() && some_quantity_says(
                    #[trigger] pods[i],
                    pods[i].spec.containers@,
                    p,
                );
            if i < n {
                assert(some_quantity_says(init[i], init[i].spec.containers@, p));
            }
        }
    }
}

/// A scrape says what the containers of the listed pods request and are
/// limited to, and what is known of every node, and nothing else.
pub proof fn law_scrape_says_it_all(
    pods: Seq<Pod>,
    nodes: Seq<Node>,
    stats: Seq<Option<StatsSummary>>,
    p: Point,
)
    ensures
        scraped(pods, nodes, stats).contains(p) <==> some_listed_pod_says(pods, p) || some_node_says(
            nodes,
            stats,
            images_of(pods),
            p,
        ),
{
    lemma_either_has(pods_points(pods), nodes_points(nodes, stats, images_of(pods)), p);
    lemma_listed(pods, p);
    lemma_nodes(nodes, stats, images_of(pods), p);
}

proof fn lemma_fed_sound(v: StoreView, points: Seq<Point>, now: i64)
    requires
        store::store_wf(v),
        store::accepting(v, now),
        forall|i: int| 0 <= i < points.len() ==> textmap::ordered((#[trigger] points[i]).0),
    ensures
        store::store_wf(fed(v, points, now)),
        store::accepting(fed(v, points, now), now),
    decreases points.len(),
{
    if points.len() > 0 {
        let init = points.drop_last();
        assert forall|i: int| 0 <= i < init.len() implies textmap::ordered((#[trigger] init[i]).0) by {
            assert(init[i] == points[i]);
        }
        lemma_fed_sound(v, init, now);
        assert(textmap::ordered(points[points.len() - 1].0));
        store::law_append_keeps_accepting(
            fed(v, init, now),
            points.last().0,
            Sample { t: now, v: points.last().1 },
        );
    }
}

/// A series that no point of a scrape belongs to stays as it is.
pub proof fn law_other_series_stay(v: StoreView, points: Seq<Point>, now: i64, key: Seq<char>)
    requires
        store::store_wf(v),
        store::accepting(v, now),
        forall|i: int| 0 <= i < points.len() ==> textmap::ordered((#[trigger] points[i]).0),
        forall|i: int| 0 <= i < points.len() ==> store::key_of((#[trigger] points[i]).0) != key,
    ensures
        keyed::found(fed(v, points, now).series, key) == keyed::found(v.series, key),
    decreases points.len(),
{
    if points.len() > 0 {
        let init = points.drop_last();
        assert forall|i: int| 0 <= i < init.len() implies textmap::ordered((#[trigger] init[i]).0)
            && store::key_of(init[i].0) != key by {
            assert(init[i] == points[i]);
        }
        law_other_series_stay(v, init, now, key);
        lemma_fed_sound(v, init, now);
        assert(store::key_of(points[points.len() - 1].0) != key);
        assert(textmap::ordered(points[points.len() - 1].0));
        let sample = Sample { t: now, v: points.last().1 };
        store::law_append_keeps_accepting(fed(v, init, now), points.last().0, sample);
        store::law_append_adds_one_sample(fed(v, init, now), points.last().0, sample, key);
    }
}

proof fn lemma_found_sound(v: StoreView, key: Seq<char>)
    requires
        store::store_wf(v),
        keyed::found(v.series, key) is Some,
    ensures
        series::series_wf(keyed::found(v.series, key)->0),
{
    keyed::lemma_place(v.series, key);
    let i = keyed::place(v.series, key) as int;
    assert(series::series_wf(v.series[i].1));
}

/// The samples under a key, none where it has no series.
pub open spec fn samples_under(v: StoreView, key: Seq<char>) -> Seq<Sample> {
    match keyed::found(v.series, key) {
        Some(s) => series::all_samples(s),
        None => seq![],
    }
}

/// Each point of a scrape becomes the last sample of its series, at the time
/// of the scrape, behind those that the series had. Of two points with the
/// same labels the first counts.
pub proof fn law_points_become_samples(v: StoreView, points: Seq<Point>, now: i64, i: int)
    requires
        store::store_wf(v),
        store::accepting(v, now),
        forall|j: int| 0 <= j < points.len() ==> textmap::ordered((#[trigger] points[j]).0),
        0 <= i < points.len(),
        forall|j: int| 0 <= j < i ==> store::key_of((#[trigger] points[j]).0) != store::key_of(points[i].0),
        forall|k: int|
            0 <= k < samples_under(v, store::key_of(points[i].0)).len() ==> (
            #[trigger] samples_under(v, store::key_of(points[i].0))[k]).t < now,
    ensures
        samples_under(fed(v, points, now), store::key_of(points[i].0)) == samples_under(
            v,
            store::key_of(points[i].0),
        ).push(Sample { t: now, v: points[i].1 }),
    decreases points.len(),
{
    let key = store::key_of(points[i].0);
    let init = points.drop_last();
    let n = points.len() - 1;
    let last = points.last();
    let sample = Sample { t: now, v: last.1 };
    let before = fed(v, init, now);
    assert forall|j: int| 0 <= j < init.len() implies textmap::ordered((#[trigger] init[j]).0) by {
        assert(init[j] == points[j]);
    }
    lemma_fed_sound(v, init, now);
    assert(textmap::ordered(points[n].0));
    store::law_append_keeps_accepting(before, last.0, sample);
    store::law_append_adds_one_sample(before, last.0, sample, key);
    if i < n {
        assert forall|j: int| 0 <= j < i implies store::key_of((#[trigger] init[j]).0) != store::key_of(
            init[i].0,
        ) by {
            assert(init[j] == points[j]);
        }
        assert(init[i] == points[i]);
        law_points_become_samples(v, init, now, i);
        let was = samples_under(before, key);
        assert(was.len() > 0 && was.last().t == now);
        lemma_found_sound(before, key);
        series::law_samples_ascend(keyed::found(before.series, key)->0);
    } else {
        assert forall|j: int| 0 <= j < init.len() implies store::key_of((#[trigger] init[j]).0)
            != key by {
            assert(init[j] == points[j]);
        }
        law_other_series_stay(v, init, now, key);
        if keyed::found(before.series, key) is Some {
            let s = keyed::found(before.series, key)->0;
            lemma_found_sound(before, key);
            series::law_samples_ascend(s);
            let was = samples_under(v, key);
            assert(was == series::all_samples(s));
            if was.len() > 0 {
                assert(was[was.len() - 1].t < now);
            }
        } else {
            assert(samples_under(v, key).push(sample) =~= seq![sample]);
        }
    }
}

/// Whether a container that some kubelet reports has no image that is
/// known.
pub open spec fn some_unknown(
    nodes: Seq<Node>,
    stats: Seq<Option<StatsSummary>>,
    images: Seq<Image>,
) -> bool {
    exists|i: int, j: int, k: int| #[trigger] unknown_at(nodes, stats, images, i, j, k)
}

/// Whether the container at a place has no image that is known.
pub open spec fn unknown_at(
    nodes: Seq<Node>,
    stats: Seq<Option<StatsSummary>>,
    images: Seq<Image>,
    i: int,
    j: int,
    k: int,
) -> bool {
    0 <= i < nodes.len() && stats[i] is Some && 0 <= j < stats[i]->0.pods@.len() && 0 <= k < stats[i]->0.pods@[j].containers@.len()
        && known_image(
        images,
        stats[i]->0.pods@[j].pod_ref.namespace@,
        stats[i]->0.pods@[j].pod_ref.name@,
        stats[i]->0.pods@[j].containers@[k].name@,
    ) is None
}

proof fn lemma_unknown_in(pod: PodStats, containers: Seq<ContainerStats>, images: Seq<Image>)
    ensures
        unknown_in(pod, containers, images) > 0 <==> exists|k: int|
            0 <= k < containers.len() && known_image(
                images,
                pod.pod_ref.namespace@,
                pod.pod_ref.name@,
                (#[trigger] containers[k]).name@,
            ) is None,
    decreases containers.len(),
{
    if containers.len() > 0 {
        let init = containers.drop_last();
        let n = containers.len() - 1;
        lemma_unknown_in(pod, init, images);
        assert(containers[n] == containers.last());
        if unknown_in(pod, init, images) > 0 {
            let k = choose|k: int|
                0 <= k < init.len() && known_image(
                    images,
                    pod.pod_ref.namespace@,
                    pod.pod_ref.name@,
                    (#[trigger] init[k]).name@,
                ) is None;
            assert(containers[k] == init[k]);
        }
        if exists|k: int|
            0 <= k < containers.len() && known_image(
                images,
                pod.pod_ref.namespace@,
                pod.pod_ref.name@,
                (#[trigger] containers[k]).name@,
            ) is None {
            let k = choose|k: int|
                0 <= k < containers.len() && known_image(
                    images,
                    pod.pod_ref.namespace@,
                    pod.pod_ref.name@,
                    (#[trigger] containers[k]).name@,
                ) is None;
            if k < n {
                assert(init[k] == containers[k]);
            }
        }
    }
}

proof fn lemma_unknown_images(pods: Seq<PodStats>, images: Seq<Image>)
    ensures
        unknown_images(pods, images) > 0 <==> exists|j: int|
            0 <= j < pods.len() && unknown_in(
                #[trigger] pods[j],
                pods[j].containers@,
                images,
            ) > 0,
    decreases pods.len(),
{
    if pods.len() > 0 {
        let init = pods.drop_last();
        let n = pods.len() - 1;
        lemma_unknown_images(init, images);
        assert(pods[n] == pods.last());
        if unknown_images(init, images) > 0 {
            let j = choose|j: int|
                0 <= j < init.len() && unknown_in(#[trigger] init[j], init[j].containers@, images) > 0;
            assert(pods[j] == init[j]);
        }
        if exists|j: int|
            0 <= j < pods.len() && unknown_in(#[trigger] pods[j], pods[j].containers@, images) > 0 {
            let j = choose|j: int|
                0 <= j < pods.len() && unknown_in(#[trigger] pods[j], pods[j].containers@, images) > 0;
            if j < n {
                assert(init[j] == pods[j]);
            }
        }
    }
}

/// Containers are counted as unknown if and only if some kubelet reports one
/// without an image that is known.
pub proof fn law_unknown_containers_are_noticed(
    nodes: Seq<Node>,
    stats: Seq<Option<StatsSummary>>,
    images: Seq<Image>,
)
    ensures
        unknown_on(nodes, stats, images) > 0 <==> some_unknown(nodes, stats, images),
    decreases nodes.len(),
{
    if nodes.len() > 0 {
        let init = nodes.drop_last();
        let n = nodes.len() - 1;
        law_unknown_containers_are_noticed(init, stats, images);
        if unknown_on(init, stats, images) > 0 {
            let (i, j, k) = choose|i: int, j: int, k: int| #[trigger]
                unknown_at(init, stats, images, i, j, k);
            assert(unknown_at(nodes, stats, images, i, j, k));
        }
        if let Some(own) = stats[n] {
            lemma_unknown_images(own.pods@, images);
            if unknown_images(own.pods@, images) > 0 {
                let j = choose|j: int|
                    0 <= j < own.pods@.len() && unknown_in(
                        #[trigger] own.pods@[j],
                        own.pods@[j].containers@,
                        images,
                    ) > 0;
                let pod = own.pods@[j];
                lemma_unknown_in(pod, pod.containers@, images);
                let k = choose|k: int|
                    0 <= k < pod.containers@.len() && known_image(
                        images,
                        pod.pod_ref.namespace@,
                        pod.pod_ref.name@,
                        (#[trigger] pod.containers@[k]).name@,
                    ) is None;
                assert(unknown_at(nodes, stats, images, n, j, k));
            }
        }
        if some_unknown(nodes, stats, images) {
            let (i, j, k) = choose|i: int, j: int, k: int| #[trigger]
                unknown_at(nodes, stats, images, i, j, k);
            if i < n {
                assert(unknown_at(init, stats, images, i, j, k));
            } else {
                let pod = stats[n]->0.pods@[j];
                lemma_unknown_images(stats[n]->0.pods@, images);
                lemma_unknown_in(pod, pod.containers@, images);
                assert(known_image(
                    images,
                    pod.pod_ref.namespace@,
                    pod.pod_ref.name@,
                    pod.containers@[k].name@,
                ) is None);
                assert(unknown_in(pod, pod.containers@, images) > 0);
            }
        }
    }
}

/// The pod list is fetched where there is none, where it is stale, and once
/// it is as old as the interval. One that comes takes its place, is as old
/// as the scrape and not stale; where none comes, what was held is used
/// again.
pub proof fn law_pod_list_is_fetched_when_due(
    held: CacheView,
    now: i64,
    every: i64,
    fetched: Option<Seq<Pod>>,
)
    ensures
        refresh_due(None, now, every),
        held.stale ==> refresh_due(Some(held), now, every),
        !held.stale ==> (refresh_due(Some(held), now, every) <==> held.fetched_at + every <= now),
        (held.stale || held.fetched_at + every <= now) && fetched is Some ==> (after_asking(
            Some(held),
            now,
            every,
            fetched,
        ) matches Some(got) && got.pods == fetched->0 && got.fetched_at == now && !got.stale),
        fetched is None || (!held.stale && held.fetched_at + every > now) ==> after_asking(
            Some(held),
            now,
            every,
            fetched,
        ) == Some(held),
        fetched is Some ==> (after_asking(None, now, every, fetched) matches Some(got) && got.pods
            == fetched->0 && got.fetched_at == now && !got.stale),
        fetched is None ==> after_asking(None, now, every, fetched) is None,
{
}

/// A scrape leaves the pod list as it was, and marks it stale if a container
/// was met that it cannot name.
pub proof fn law_scrape_marks_the_list_stale(
    held: CacheView,
    nodes: Seq<Node>,
    stats: Seq<Option<StatsSummary>>,
)
    ensures
        after_scrape(held, nodes, stats).pods == held.pods,
        after_scrape(held, nodes, stats).fetched_at == held.fetched_at,
        after_scrape(held, nodes, stats).stale <==> held.stale || some_unknown(
            nodes,
            stats,
            images_of(held.pods),
        ),
{
    law_unknown_containers_are_noticed(nodes, stats, images_of(held.pods));
}

} // verus!
