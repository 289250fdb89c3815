//! Turning API objects and kubelet stats into the series that are asked
//! for.
//!
//! The metric names below are node-exporter's, cadvisor's and
//! kube-state-metrics'. Each series exists because a query names it, and
//! the values are chosen so that the arithmetic the queries perform comes
//! out right. The clearest case is memory: a chart shows
//!
//!     MemTotal - (MemFree + Buffers + Cached)
//!
//! so publishing capacity, the kubelet's available bytes, and two zeroes
//! makes that expression evaluate to the working set.

use crate::double;
use crate::kube;
use crate::kube::{
    Container, ContainerStats, ContainerStatus, FsStats, List, MemoryStats, Node, NodeStats, Pod, PodStats,
    StatsSummary, VolumeStats,
};
use crate::store;
use crate::store::{labels, Sample, Store, StoreView};
use crate::text;
use crate::textmap;
use crate::textmap::{Entry, TextMap};
use vstd::prelude::*;

verus! {

/// Non-empty on purpose. Queries filter container series with `image!=""`,
/// so a container whose image is not known must still carry one.
pub const UNKNOWN_IMAGE: &'static str = "unknown";

/// A sample to be: what it is called, and the bits of the double it holds.
pub type Point = (Seq<Entry>, u64);

/// A store after points came in, all at the same time.
pub open spec fn fed(v: StoreView, points: Seq<Point>, now: i64) -> StoreView
    decreases points.len(),
{
    if points.len() == 0 {
        v
    } else {
        store::appended(
            fed(v, points.drop_last(), now),
            points.last().0,
            Sample { t: now, v: points.last().1 },
        )
    }
}

/// Points come in one after the other.
pub proof fn law_feeding_goes_on(v: StoreView, a: Seq<Point>, b: Seq<Point>, now: i64)
    ensures
        fed(v, a + b, now) == fed(fed(v, a, now), b, now),
    decreases b.len(),
{
    if b.len() == 0 {
        assert(a + b =~= a);
    } else {
        assert((a + b).drop_last() =~= a + b.drop_last());
        law_feeding_goes_on(v, a, b.drop_last(), now);
    }
}

/// The pod list, held between scrapes.
///
/// It is the largest thing that is read, and almost none of it changes
/// between scrapes: images and resource requests are fixed for the life of
/// a pod. So it is refetched on its own slower cadence and the series
/// derived from it are still appended every scrape, from the held copy.
///
/// Left at that, the interval would widen a real hazard. A container the
/// list has not seen gets `image="unknown"`, and when the real image
/// arrives it starts a different series -- so for a while both answer, and
/// a sum by pod counts the pod twice. So a scrape that meets a container it
/// cannot name marks the list stale and the next one refetches.
pub struct PodCache {
    pods: List<Pod>,
    fetched_at: i64,
    /// Set when a scrape saw a container that the list cannot name.
    stale: bool,
}

/// A pod list, when it was fetched, and whether it has to be fetched again.
pub struct CacheView {
    pub pods: Seq<Pod>,
    pub fetched_at: i64,
    pub stale: bool,
}

impl View for PodCache {
    type V = CacheView;

    closed spec fn view(&self) -> CacheView {
        CacheView { pods: self.pods.items@, fetched_at: self.fetched_at, stale: self.stale }
    }
}

/// Whether the pod list has to be fetched.
pub open spec fn refresh_due(cache: Option<CacheView>, now: i64, every: i64) -> bool {
    match cache {
        None => true,
        Some(held) => held.stale || now - held.fetched_at >= every,
    }
}

/// The pods of a list, if one came.
pub open spec fn listed(fetched: Option<List<Pod>>) -> Option<Seq<Pod>> {
    match fetched {
        Some(pods) => Some(pods.items@),
        None => None,
    }
}

/// What is held once a pod list was to be fetched. One that did not come
/// leaves what was held.
pub open spec fn after_fetch(held: Option<CacheView>, now: i64, fetched: Option<Seq<Pod>>) -> Option<
    CacheView,
> {
    match fetched {
        Some(pods) => Some(CacheView { pods, fetched_at: now, stale: false }),
        None => held,
    }
}

/// What a scrape goes by: the pod list is fetched only where that is due.
pub open spec fn after_asking(
    held: Option<CacheView>,
    now: i64,
    every: i64,
    fetched: Option<Seq<Pod>>,
) -> Option<CacheView> {
    if refresh_due(held, now, every) {
        after_fetch(held, now, fetched)
    } else {
        held
    }
}

/// A cache that may be missing.
pub open spec fn cache_view(cache: Option<PodCache>) -> Option<CacheView> {
    match cache {
        Some(held) => Some(held@),
        None => None,
    }
}

/// What became of a pod list that was to be fetched.
#[derive(Clone, Copy, Debug, PartialEq, Eq, Structural)]
pub enum Refresh {
    /// The list is the one that was fetched.
    Fresh,
    /// It could not be fetched, and the one from so many seconds ago is
    /// used again.
    Reused(i128),
    /// It could not be fetched, and there is none.
    Missing,
}

impl PodCache {
    /// A list of no pods, fetched at a time.
    pub fn for_test(fetched_at: i64) -> (cache: Option<Self>)
        ensures
            cache_view(cache) == Some(
                CacheView { pods: seq![], fetched_at, stale: false },
            ),
    {
        let cache = PodCache { pods: List { items: Vec::new() }, fetched_at, stale: false };
        proof {
            assert(cache@.pods =~= seq![]);
        }
        Some(cache)
    }

    pub fn mark_stale_for_test(&mut self)
        ensures
            final(self)@ == (CacheView {
                pods: old(self)@.pods,
                fetched_at: old(self)@.fetched_at,
                stale: true,
            }),
    {
        self.stale = true;
    }

    /// Whether the pod list has to be fetched.
    pub fn needs_refresh(cache: &Option<Self>, now: i64, every: i64) -> (r: bool)
        ensures
            r == refresh_due(cache_view(*cache), now, every),
    {
        match cache {
            None => true,
            Some(held) => held.stale || now as i128 - held.fetched_at as i128 >= every as i128,
        }
    }

    /// Takes a pod list in that was to be fetched.
    ///
    /// A refresh that fails is not fatal while a previous list is held: the
    /// series it feeds are better a few minutes stale than absent, and the
    /// next scrape tries again. With nothing held there is nothing to fall
    /// back on.
    pub fn refresh(cache: &mut Option<Self>, now: i64, fetched: Option<List<Pod>>) -> (r: Refresh)
        ensures
            cache_view(*final(cache)) == after_fetch(cache_view(*old(cache)), now, listed(fetched)),
            match fetched {
                Some(_) => r == Refresh::Fresh,
                None => match cache_view(*old(cache)) {
                    Some(held) => r == Refresh::Reused((now - held.fetched_at) as i128),
                    None => r == Refresh::Missing,
                },
            },
    {
        match fetched {
            Some(pods) => {
                *cache = Some(PodCache { pods, fetched_at: now, stale: false });
                Refresh::Fresh
            },
            None => match cache.as_ref() {
                Some(held) => Refresh::Reused(now as i128 - held.fetched_at as i128),
                None => Refresh::Missing,
            },
        }
    }
}

/// The unit in which a resource is measured.
pub open spec fn unit_of(resource: Seq<char>) -> Seq<char> {
    if resource == "cpu"@ {
        "core"@
    } else if resource == "memory"@ || resource == "ephemeral-storage"@ || resource == "storage"@ {
        "byte"@
    } else {
        "integer"@
    }
}

pub fn unit_for(resource: &str) -> (unit: &'static str)
    ensures
        unit@ == unit_of(resource@),
{
    if text::same(resource, "cpu") {
        "core"
    } else if text::same(resource, "memory") || text::same(resource, "ephemeral-storage")
        || text::same(resource, "storage") {
        "byte"
    } else {
        "integer"
    }
}

/// The points of a container's resource quantities. One that makes no sense
/// is left out.
pub open spec fn container_points(
    metric: Seq<char>,
    quantities: Seq<Entry>,
    pod: Pod,
    container: Container,
) -> Seq<Point>
    decreases quantities.len(),
{
    if quantities.len() == 0 {
        seq![]
    } else {
        let before = container_points(metric, quantities.drop_last(), pod, container);
        let (resource, amount) = quantities.last();
        match kube::quantity(amount) {
            Some(v) => before.push(
                (
                    store::labelled(
                        metric,
                        seq![
                            ("namespace"@, pod.metadata.namespace@),
                            ("pod"@, pod.metadata.name@),
                            ("container"@, container.name@),
                            ("node"@, pod.spec.node_name@),
                            ("resource"@, resource),
                            ("unit"@, unit_of(resource)),
                        ],
                    ),
                    v,
                ),
            ),
            None => before,
        }
    }
}

/// The points of a pod's containers: what each requests, then its limits.
pub open spec fn pod_points(pod: Pod, containers: Seq<Container>) -> Seq<Point>
    decreases containers.len(),
{
    if containers.len() == 0 {
        seq![]
    } else {
        let last = containers.last();
        pod_points(pod, containers.drop_last()) + container_points(
            "kube_pod_container_resource_requests"@,
            last.resources.requests@,
            pod,
            last,
        ) + container_points(
            "kube_pod_container_resource_limits"@,
            last.resources.limits@,
            pod,
            last,
        )
    }
}

/// The points of pods.
pub open spec fn pods_points(pods: Seq<Pod>) -> Seq<Point>
    decreases pods.len(),
{
    if pods.len() == 0 {
        seq![]
    } else {
        pods_points(pods.drop_last()) + pod_points(pods.last(), pods.last().spec.containers@)
    }
}

/// Which container has which image: namespace, pod, container and image.
pub type Image = (Seq<char>, Seq<char>, Seq<char>, Seq<char>);

/// The images that a pod asks for.
pub open spec fn asked_images(pod: Pod, containers: Seq<Container>) -> Seq<Image>
    decreases containers.len(),
{
    if containers.len() == 0 {
        seq![]
    } else {
        asked_images(pod, containers.drop_last()).push(
            (
                pod.metadata.namespace@,
                pod.metadata.name@,
                containers.last().name@,
                containers.last().image@,
            ),
        )
    }
}

/// The images that a pod is reported to run. They are the resolved ones,
/// where the kubelet has reported them.
pub open spec fn run_images(pod: Pod, statuses: Seq<ContainerStatus>) -> Seq<Image>
    decreases statuses.len(),
{
    if statuses.len() == 0 {
        seq![]
    } else {
        let before = run_images(pod, statuses.drop_last());
        if statuses.last().image@.len() == 0 {
            before
        } else {
            before.push(
                (
                    pod.metadata.namespace@,
                    pod.metadata.name@,
                    statuses.last().name@,
                    statuses.last().image@,
                ),
            )
        }
    }
}

/// The images of pods; the last that is given for a container is the one it
/// has.
pub open spec fn images_of(pods: Seq<Pod>) -> Seq<Image>
    decreases pods.len(),
{
    if pods.len() == 0 {
        seq![]
    } else {
        let last = pods.last();
        images_of(pods.drop_last()) + asked_images(last, last.spec.containers@) + run_images(
            last,
            last.status.container_statuses@,
        )
    }
}

/// The image of a container.
pub open spec fn image_in(
    images: Seq<Image>,
    namespace: Seq<char>,
    pod: Seq<char>,
    container: Seq<char>,
) -> Option<Seq<char>>
    decreases images.len(),
{
    if images.len() == 0 {
        None
    } else {
        let last = images.last();
        if last.0 == namespace && last.1 == pod && last.2 == container {
            Some(last.3)
        } else {
            image_in(images.drop_last(), namespace, pod, container)
        }
    }
}

/// The image of a container, if one is known that is not empty.
pub open spec fn known_image(
    images: Seq<Image>,
    namespace: Seq<char>,
    pod: Seq<char>,
    container: Seq<char>,
) -> Option<Seq<char>> {
    match image_in(images, namespace, pod, container) {
        Some(image) => if image.len() > 0 {
            Some(image)
        } else {
            None
        },
        None => None,
    }
}

/// Which container has which image.
pub struct Images {
    entries: Vec<(String, String, String, String)>,
}

/// Images as text.
pub open spec fn image_views(entries: Seq<(String, String, String, String)>) -> Seq<Image> {
    entries.map_values(|e: (String, String, String, String)| (e.0@, e.1@, e.2@, e.3@))
}

impl View for Images {
    type V = Seq<Image>;

    closed spec fn view(&self) -> Seq<Image> {
        image_views(self.entries@)
    }
}

impl Images {
    fn new() -> (images: Images)
        ensures
            images@ == Seq::<Image>::empty(),
    {
        let images = Images { entries: Vec::new() };
        proof {
            assert(images@ =~= seq![]);
        }
        images
    }

    fn push(&mut self, namespace: &String, pod: &String, container: &String, image: &String)
        ensures
            final(self)@ == old(self)@.push((namespace@, pod@, container@, image@)),
    {
        self.entries.push((namespace.clone(), pod.clone(), container.clone(), image.clone()));
        proof {
            assert(self@ =~= old(self)@.push((namespace@, pod@, container@, image@)));
        }
    }

    /// The image of a container, if one is known that is not empty.
    pub fn known(&self, namespace: &str, pod: &str, container: &str) -> (r: Option<&str>)
        ensures
            match r {
                Some(image) => known_image(self@, namespace@, pod@, container@) == Some(image@),
                None => known_image(self@, namespace@, pod@, container@) is None,
            },
    {
        let mut i: usize = self.entries.len();
        proof {
            assert(self@.take(i as int) =~= self@);
        }
        while i > 0
            invariant
                i <= self.entries@.len(),
                image_in(self@, namespace@, pod@, container@) == image_in(
                    self@.take(i as int),
                    namespace@,
                    pod@,
                    container@,
                ),
            decreases i,
        {
            i -= 1;
            let e = &self.entries[i];
            proof {
                assert(self@.take(i + 1).last() == (e.0@, e.1@, e.2@, e.3@));
                assert(self@.take(i + 1).drop_last() =~= self@.take(i as int));
            }
            if text::same(e.0.as_str(), namespace) && text::same(e.1.as_str(), pod) && text::same(
                e.2.as_str(),
                container,
            ) {
                return if e.3.as_str().is_empty() {
                    None
                } else {
                    Some(e.3.as_str())
                };
            }
        }
        None
    }

    /// The images of pods.
    pub fn of(pods: &Vec<Pod>) -> (images: Images)
        ensures
            images@ == images_of(pods@),
    {
        let mut images = Images::new();
        let mut i: usize = 0;
        proof {
            assert(pods@.take(0) =~= seq![]);
        }
        while i < pods.len()
            invariant
                i <= pods@.len(),
                images@ == images_of(pods@.take(i as int)),
            decreases pods@.len() - i,
        {
            let pod = &pods[i];
            let ghost before = images@;
            proof {
                assert(pods@.take(i + 1).drop_last() =~= pods@.take(i as int));
            }
            let containers = &pod.spec.containers;
            let mut k: usize = 0;
            proof {
                assert(containers@.take(0) =~= seq![]);
                assert(images@ =~= before + asked_images(*pod, containers@.take(0)));
            }
            while k < containers.len()
                invariant
                    k <= containers@.len(),
                    images@ == before + asked_images(*pod, containers@.take(k as int)),
                decreases containers@.len() - k,
            {
                proof {
                    assert(containers@.take(k + 1).drop_last() =~= containers@.take(k as int));
                }
                let ghost was = images@;
                images.push(
                    &pod.metadata.namespace,
                    &pod.metadata.name,
                    &containers[k].name,
                    &containers[k].image,
                );
                proof {
                    assert(images@ =~= before + asked_images(*pod, containers@.take(k + 1)));
                }
                k += 1;
            }
            proof {
                assert(containers@.take(k as int) =~= containers@);
            }
            let statuses = &pod.status.container_statuses;
            let ghost asked = images@;
            let mut k: usize = 0;
            proof {
                assert(statuses@.take(0) =~= seq![]);
                assert(images@ =~= asked + run_images(*pod, statuses@.take(0)));
            }
            while k < statuses.len()
                invariant
                    k <= statuses@.len(),
                    images@ == asked + run_images(*pod, statuses@.take(k as int)),
                decreases statuses@.len() - k,
            {
                proof {
                    assert(statuses@.take(k + 1).drop_last() =~= statuses@.take(k as int));
                }
                if !statuses[k].image.as_str().is_empty() {
                    images.push(
                        &pod.metadata.namespace,
                        &pod.metadata.name,
                        &statuses[k].name,
                        &statuses[k].image,
                    );
                }
                proof {
                    assert(images@ =~= asked + run_images(*pod, statuses@.take(k + 1)));
                }
                k += 1;
            }
            proof {
                assert(statuses@.take(k as int) =~= statuses@);
            }
            i += 1;
        }
        proof {
            assert(pods@.take(i as int) =~= pods@);
        }
        images
    }
}

/// Takes a point in.
fn put(store: &mut Store, metric: &str, pairs: &[(&str, &str)], now: i64, v: u64)
    requires
        old(store).wf(),
        store::accepting(old(store)@, now),
    ensures
        final(store).wf(),
        store::accepting(final(store)@, now),
        final(store)@ == fed(
            old(store)@,
            seq![(store::labelled(metric@, store::pair_views(pairs@)), v)],
            now,
        ),
{
    let set = labels(metric, pairs);
    let ghost was = store@;
    let ghost point = (set@, v);
    proof {
        assert(store::takes(was, set@, now)) by {
            let key = store::key_of(set@);
            crate::keyed::lemma_place(was.series, key);
            if crate::keyed::holds(was.series, key) {
                let at = crate::keyed::place(was.series, key) as int;
                assert(crate::series::reaches(was.series[at].1.head, now));
            }
        }
        assert(seq![point].drop_last() =~= seq![]);
        reveal_with_fuel(fed, 2);
    }
    store.append(set, now, v);
}

/// The points of a node's resource quantities.
pub open spec fn status_points(metric: Seq<char>, quantities: Seq<Entry>, node: Seq<char>) -> Seq<
    Point,
>
    decreases quantities.len(),
{
    if quantities.len() == 0 {
        seq![]
    } else {
        let before = status_points(metric, quantities.drop_last(), node);
        let (resource, amount) = quantities.last();
        match kube::quantity(amount) {
            Some(v) => before.push(
                (
                    store::labelled(
                        metric,
                        seq![
                            ("node"@, node),
                            ("resource"@, resource),
                            ("unit"@, unit_of(resource)),
                        ],
                    ),
                    v,
                ),
            ),
            None => before,
        }
    }
}

/// The points of a node: what it has, then what of it can be allocated.
pub open spec fn node_points(node: Node) -> Seq<Point> {
    status_points(
        "kube_node_status_capacity"@,
        node.status.capacity@,
        node.metadata.name@,
    ) + status_points(
        "kube_node_status_allocatable"@,
        node.status.allocatable@,
        node.metadata.name@,
    )
}

/// Three names for one node, because the query grammar decides which one is
/// read: some filter on `instance` and group by `kubernetes_node`, others
/// use `node` for both.
pub open spec fn node_pairs(node: Seq<char>) -> Seq<Entry> {
    seq![("kubernetes_node"@, node), ("instance"@, node), ("node"@, node)]
}

/// A number that may be missing, zero where it is.
pub open spec fn or_zero(v: Option<u64>) -> u64 {
    match v {
        Some(v) => v,
        None => double::of_int(0),
    }
}

/// The first of two numbers that is there.
pub open spec fn either(a: Option<u64>, b: Option<u64>) -> Option<u64> {
    match a {
        Some(a) => Some(a),
        None => b,
    }
}

/// Nanoseconds as seconds.
pub open spec fn seconds(nanos: u64) -> u64 {
    double::quotient(nanos, double::of_int(1_000_000_000))
}

/// A point that is there if its number is.
pub open spec fn point_if(metric: Seq<char>, pairs: Seq<Entry>, v: Option<u64>) -> Seq<Point> {
    match v {
        Some(v) => seq![(store::labelled(metric, pairs), v)],
        None => seq![],
    }
}

/// The points of a node's memory. The kubelet already accounts for page
/// cache in the working set, so buffers and cache are zero rather than
/// unreported: queries subtract them, and an absent series would make the
/// whole expression drop out.
pub open spec fn memory_points(node: Seq<char>, memory: Option<MemoryStats>) -> Seq<Point> {
    match memory {
        None => seq![],
        Some(m) => {
            let available = or_zero(m.available_bytes);
            let working_set = or_zero(either(m.working_set_bytes, m.usage_bytes));
            seq![
                (
                    store::labelled("node_memory_MemTotal_bytes"@, node_pairs(node)),
                    double::sum(available, working_set),
                ),
                (store::labelled("node_memory_MemFree_bytes"@, node_pairs(node)), available),
                (
                    store::labelled("node_memory_Buffers_bytes"@, node_pairs(node)),
                    double::of_int(0),
                ),
                (
                    store::labelled("node_memory_Cached_bytes"@, node_pairs(node)),
                    double::of_int(0),
                ),
            ]
        },
    }
}

/// The point of a node's processor time: a cumulative counter, under the
/// one mode that is enough.
pub open spec fn cpu_points(node: Seq<char>, stats: NodeStats) -> Seq<Point> {
    point_if(
        "node_cpu_seconds_total"@,
        node_pairs(node) + seq![("mode"@, "user"@), ("cpu"@, "0"@)],
        match stats.cpu {
            Some(cpu) => match cpu.usage_core_nano_seconds {
                Some(nanos) => Some(seconds(nanos)),
                None => None,
            },
            None => None,
        },
    )
}

/// The points of a node's root filesystem.
pub open spec fn fs_points(node: Seq<char>, fs: Option<FsStats>) -> Seq<Point> {
    match fs {
        None => seq![],
        Some(fs) => {
            let pairs = node_pairs(node) + seq![("mountpoint"@, "/"@)];
            point_if("node_filesystem_size_bytes"@, pairs, fs.capacity_bytes) + point_if(
                "node_filesystem_avail_bytes"@,
                pairs,
                fs.available_bytes,
            )
        },
    }
}

/// The image that a container's series carry.
pub open spec fn shown_image(
    images: Seq<Image>,
    namespace: Seq<char>,
    pod: Seq<char>,
    container: Seq<char>,
) -> Seq<char> {
    match known_image(images, namespace, pod, container) {
        Some(image) => image,
        None => UNKNOWN_IMAGE@,
    }
}

/// What a filesystem has in use.
pub open spec fn used(fs: Option<FsStats>) -> Option<u64> {
    match fs {
        Some(fs) => fs.used_bytes,
        None => None,
    }
}

/// The points of a container: processor time, working set, and writable
/// layer plus logs, which is what it costs the node's disk.
pub open spec fn usage_points(
    node: Seq<char>,
    pod: PodStats,
    container: ContainerStats,
    images: Seq<Image>,
) -> Seq<Point> {
    let pairs = seq![
        ("namespace"@, pod.pod_ref.namespace@),
        ("pod"@, pod.pod_ref.name@),
        ("container"@, container.name@),
        (
            "image"@,
            shown_image(
                images,
                pod.pod_ref.namespace@,
                pod.pod_ref.name@,
                container.name@,
            ),
        ),
        ("instance"@, node),
    ];
    let rootfs = used(container.rootfs);
    let logs = used(container.logs);
    point_if(
        "container_cpu_usage_seconds_total"@,
        pairs,
        match container.cpu {
            Some(cpu) => match cpu.usage_core_nano_seconds {
                Some(nanos) => Some(seconds(nanos)),
                None => None,
            },
            None => None,
        },
    ) + point_if(
        "container_memory_working_set_bytes"@,
        pairs,
        match container.memory {
            Some(memory) => either(memory.working_set_bytes, memory.usage_bytes),
            None => None,
        },
    ) + point_if(
        "container_fs_usage_bytes"@,
        pairs,
        if rootfs is Some || logs is Some {
            Some(double::sum(or_zero(rootfs), or_zero(logs)))
        } else {
            None
        },
    )
}

/// The points of some containers of a pod.
pub open spec fn all_usage_points(
    node: Seq<char>,
    pod: PodStats,
    containers: Seq<ContainerStats>,
    images: Seq<Image>,
) -> Seq<Point>
    decreases containers.len(),
{
    if containers.len() == 0 {
        seq![]
    } else {
        all_usage_points(node, pod, containers.drop_last(), images) + usage_points(
            node,
            pod,
            containers.last(),
            images,
        )
    }
}

/// The points of a pod's network. Every container shares the pod's
/// interface, so these carry no container label.
pub open spec fn network_points(node: Seq<char>, pod: PodStats) -> Seq<Point> {
    match pod.network {
        None => seq![],
        Some(network) => {
            let pairs = seq![
                ("namespace"@, pod.pod_ref.namespace@),
                ("pod"@, pod.pod_ref.name@),
                ("instance"@, node),
            ];
            point_if("container_network_receive_bytes_total"@, pairs, network.rx_bytes) + point_if(
                "container_network_transmit_bytes_total"@,
                pairs,
                network.tx_bytes,
            )
        },
    }
}

/// The points of a volume, if a claim stands behind it.
pub open spec fn volume_points(volume: VolumeStats) -> Seq<Point> {
    match volume.pvc_ref {
        None => seq![],
        Some(pvc) => {
            let pairs = seq![
                ("persistentvolumeclaim"@, pvc.name@),
                ("namespace"@, pvc.namespace@),
            ];
            point_if("kubelet_volume_stats_used_bytes"@, pairs, volume.used_bytes) + point_if(
                "kubelet_volume_stats_capacity_bytes"@,
                pairs,
                volume.capacity_bytes,
            )
        },
    }
}

/// The points of some volumes.
pub open spec fn all_volume_points(volumes: Seq<VolumeStats>) -> Seq<Point>
    decreases volumes.len(),
{
    if volumes.len() == 0 {
        seq![]
    } else {
        all_volume_points(volumes.drop_last()) + volume_points(volumes.last())
    }
}

/// The points of a pod that a kubelet reports.
pub open spec fn reported_points(node: Seq<char>, pod: PodStats, images: Seq<Image>) -> Seq<Point> {
    all_usage_points(node, pod, pod.containers@, images) + network_points(node, pod)
        + all_volume_points(pod.volume@)
}

/// The points of some pods that a kubelet reports.
pub open spec fn all_reported_points(node: Seq<char>, pods: Seq<PodStats>, images: Seq<Image>) -> Seq<
    Point,
>
    decreases pods.len(),
{
    if pods.len() == 0 {
        seq![]
    } else {
        all_reported_points(node, pods.drop_last(), images) + reported_points(
            node,
            pods.last(),
            images,
        )
    }
}

/// The points of what a kubelet reports.
pub open spec fn stats_points(node: Seq<char>, stats: StatsSummary, images: Seq<Image>) -> Seq<
    Point,
> {
    memory_points(node, stats.node.memory) + cpu_points(node, stats.node) + fs_points(
        node,
        stats.node.fs,
    ) + seq![
        (
            store::labelled("kubelet_running_pods"@, seq![("instance"@, node)]),
            double::of_int(stats.pods@.len() as int),
        ),
    ] + all_reported_points(node, stats.pods@, images)
}

/// How many of some containers of a pod have no image that is known.
pub open spec fn unknown_in(
    pod: PodStats,
    containers: Seq<ContainerStats>,
    images: Seq<Image>,
) -> nat
    decreases containers.len(),
{
    if containers.len() == 0 {
        0
    } else {
        let before = unknown_in(pod, containers.drop_last(), images);
        if known_image(
            images,
            pod.pod_ref.namespace@,
            pod.pod_ref.name@,
            containers.last().name@,
        ) is None {
            before + 1
        } else {
            before
        }
    }
}

/// How many containers of some pods have no image that is known.
pub open spec fn unknown_images(pods: Seq<PodStats>, images: Seq<Image>) -> nat
    decreases pods.len(),
{
    if pods.len() == 0 {
        0
    } else {
        unknown_images(pods.drop_last(), images) + unknown_in(
            pods.last(),
            pods.last().containers@,
            images,
        )
    }
}

/// The point that says whether a node answered.
pub open spec fn up_point(node: Seq<char>, up: bool) -> Point {
    (
        store::labelled("up"@, seq![("instance"@, node), ("job"@, "kubeloupe"@)]),
        double::of_int(
            if up {
                1
            } else {
                0
            },
        ),
    )
}

/// The points of nodes, each with what its kubelet reports if it answered.
pub open spec fn nodes_points(
    nodes: Seq<Node>,
    stats: Seq<Option<StatsSummary>>,
    images: Seq<Image>,
) -> Seq<Point>
    decreases nodes.len(),
{
    if nodes.len() == 0 {
        seq![]
    } else {
        let n = nodes.len() - 1;
        let node = nodes[n];
        let name = node.metadata.name@;
        nodes_points(nodes.drop_last(), stats, images) + node_points(node) + match stats[n] {
            Some(stats) => stats_points(name, stats, images).push(up_point(name, true)),
            None => seq![up_point(name, false)],
        }
    }
}

/// How many containers that the nodes' kubelets report have no image that
/// is known.
pub open spec fn unknown_on(
    nodes: Seq<Node>,
    stats: Seq<Option<StatsSummary>>,
    images: Seq<Image>,
) -> nat
    decreases nodes.len(),
{
    if nodes.len() == 0 {
        0
    } else {
        let n = nodes.len() - 1;
        unknown_on(nodes.drop_last(), stats, images) + match stats[n] {
            Some(stats) => unknown_images(stats.pods@, images),
            None => 0,
        }
    }
}

/// The points of a scrape.
pub open spec fn scraped(
    pods: Seq<Pod>,
    nodes: Seq<Node>,
    stats: Seq<Option<StatsSummary>>,
) -> Seq<Point> {
    pods_points(pods) + nodes_points(nodes, stats, images_of(pods))
}

/// Takes a point in if its number is there.
fn put_if(store: &mut Store, metric: &str, pairs: &[(&str, &str)], now: i64, v: Option<u64>)
    requires
        old(store).wf(),
        store::accepting(old(store)@, now),
    ensures
        final(store).wf(),
        store::accepting(final(store)@, now),
        final(store)@ == fed(
            old(store)@,
            point_if(metric@, store::pair_views(pairs@), v),
            now,
        ),
{
    match v {
        Some(v) => put(store, metric, pairs, now, v),
        None => {},
    }
}

/// Takes a container's resource quantities in.
fn collect_quantities(
    store: &mut Store,
    metric: &str,
    quantities: &TextMap,
    pod: &Pod,
    container: &Container,
    now: i64,
)
    requires
        old(store).wf(),
        store::accepting(old(store)@, now),
    ensures
        final(store).wf(),
        store::accepting(final(store)@, now),
        final(store)@ == fed(
            old(store)@,
            container_points(metric@, quantities@, *pod, *container),
            now,
        ),
{
    let entries = quantities.entries();
    let ghost all = quantities@;
    let ghost first = store@;
    let mut i: usize = 0;
    proof {
        assert(all.take(0) =~= seq![]);
    }
    while i < entries.len()
        invariant
            i <= entries@.len(),
            all == textmap::entries_of(entries@),
            store.wf(),
            store::accepting(store@, now),
            store@ == fed(
                first,
                container_points(metric@, all.take(i as int), *pod, *container),
                now,
            ),
        decreases entries@.len() - i,
    {
        let resource = entries[i].0.as_str();
        let ghost before = container_points(metric@, all.take(i as int), *pod, *container);
        proof {
            assert(all.take(i + 1).drop_last() =~= all.take(i as int));
            assert(all.take(i + 1).last() == (entries@[i as int].0@, entries@[i as int].1@));
        }
        match kube::parse_quantity(entries[i].1.as_str()) {
            Some(v) => {
                let pairs = [
                    ("namespace", pod.metadata.namespace.as_str()),
                    ("pod", pod.metadata.name.as_str()),
                    ("container", container.name.as_str()),
                    ("node", pod.spec.node_name.as_str()),
                    ("resource", resource),
                    ("unit", unit_for(resource)),
                ];
                let ghost wanted = seq![
                    ("namespace"@, pod.metadata.namespace@),
                    ("pod"@, pod.metadata.name@),
                    ("container"@, container.name@),
                    ("node"@, pod.spec.node_name@),
                    ("resource"@, resource@),
                    ("unit"@, unit_of(resource@)),
                ];
                put(store, metric, &pairs, now, v);
                proof {
                    assert(store::pair_views(pairs@) =~= wanted);
                    let point = (store::labelled(metric@, wanted), v);
                    law_feeding_goes_on(first, before, seq![point], now);
                    assert(before + seq![point] =~= before.push(point));
                }
            },
            None => {},
        }
        i += 1;
    }
    proof {
        assert(all.take(i as int) =~= all);
    }
}

/// Takes the resource series of pods in.
fn collect_pods(store: &mut Store, pods: &Vec<Pod>, now: i64)
    requires
        old(store).wf(),
        store::accepting(old(store)@, now),
    ensures
        final(store).wf(),
        store::accepting(final(store)@, now),
        final(store)@ == fed(old(store)@, pods_points(pods@), now),
{
    let ghost first = store@;
    let mut i: usize = 0;
    proof {
        assert(pods@.take(0) =~= seq![]);
    }
    while i < pods.len()
        invariant
            i <= pods@.len(),
            store.wf(),
            store::accepting(store@, now),
            store@ == fed(first, pods_points(pods@.take(i as int)), now),
        decreases pods@.len() - i,
    {
        let ghost before = pods_points(pods@.take(i as int));
        proof {
            assert(pods@.take(i + 1).drop_last() =~= pods@.take(i as int));
        }
        collect_pod(store, &pods[i], now);
        proof {
            law_feeding_goes_on(
                first,
                before,
                pod_points(pods@[i as int], pods@[i as int].spec.containers@),
                now,
            );
        }
        i += 1;
    }
    proof {
        assert(pods@.take(i as int) =~= pods@);
    }
}

/// Takes the resource series of a pod in.
fn collect_pod(store: &mut Store, pod: &Pod, now: i64)
    requires
        old(store).wf(),
        store::accepting(old(store)@, now),
    ensures
        final(store).wf(),
        store::accepting(final(store)@, now),
        final(store)@ == fed(old(store)@, pod_points(*pod, pod.spec.containers@), now),
{
    let ghost first = store@;
    let containers = &pod.spec.containers;
    let mut i: usize = 0;
    proof {
        assert(containers@.take(0) =~= seq![]);
    }
    while i < containers.len()
        invariant
            i <= containers@.len(),
            store.wf(),
            store::accepting(store@, now),
            store@ == fed(first, pod_points(*pod, containers@.take(i as int)), now),
        decreases containers@.len() - i,
    {
        let c = &containers[i];
        let ghost before = pod_points(*pod, containers@.take(i as int));
        let ghost requests = container_points(
            "kube_pod_container_resource_requests"@,
            c.resources.requests@,
            *pod,
            *c,
        );
        let ghost limits = container_points(
            "kube_pod_container_resource_limits"@,
            c.resources.limits@,
            *pod,
            *c,
        );
        proof {
            assert(containers@.take(i + 1).drop_last() =~= containers@.take(i as int));
            law_feeding_goes_on(first, before, requests, now);
            law_feeding_goes_on(first, before + requests, limits, now);
        }
        collect_quantities(
            store,
            "kube_pod_container_resource_requests",
            &c.resources.requests,
            pod,
            c,
            now,
        );
        collect_quantities(
            store,
            "kube_pod_container_resource_limits",
            &c.resources.limits,
            pod,
            c,
            now,
        );
        i += 1;
    }
    proof {
        assert(containers@.take(i as int) =~= containers@);
    }
}

/// Takes a node's resource quantities in.
fn collect_status(store: &mut Store, metric: &str, quantities: &TextMap, node: &str, now: i64)
    requires
        old(store).wf(),
        store::accepting(old(store)@, now),
    ensures
        final(store).wf(),
        store::accepting(final(store)@, now),
        final(store)@ == fed(old(store)@, status_points(metric@, quantities@, node@), now),
{
    let entries = quantities.entries();
    let ghost all = quantities@;
    let ghost first = store@;
    let mut i: usize = 0;
    proof {
        assert(all.take(0) =~= seq![]);
    }
    while i < entries.len()
        invariant
            i <= entries@.len(),
            all == textmap::entries_of(entries@),
            store.wf(),
            store::accepting(store@, now),
            store@ == fed(first, status_points(metric@, all.take(i as int), node@), now),
        decreases entries@.len() - i,
    {
        let resource = entries[i].0.as_str();
        let ghost before = status_points(metric@, all.take(i as int), node@);
        proof {
            assert(all.take(i + 1).drop_last() =~= all.take(i as int));
            assert(all.take(i + 1).last() == (entries@[i as int].0@, entries@[i as int].1@));
        }
        match kube::parse_quantity(entries[i].1.as_str()) {
            Some(v) => {
                let pairs = [("node", node), ("resource", resource), ("unit", unit_for(resource))];
                let ghost wanted = seq![
                    ("node"@, node@),
                    ("resource"@, resource@),
                    ("unit"@, unit_of(resource@)),
                ];
                put(store, metric, &pairs, now, v);
                proof {
                    assert(store::pair_views(pairs@) =~= wanted);
                    let point = (store::labelled(metric@, wanted), v);
                    law_feeding_goes_on(first, before, seq![point], now);
                    assert(before + seq![point] =~= before.push(point));
                }
            },
            None => {},
        }
        i += 1;
    }
    proof {
        assert(all.take(i as int) =~= all);
    }
}

/// Takes a node's memory in.
fn collect_memory(store: &mut Store, node: &str, memory: &MemoryStats, now: i64)
    requires
        old(store).wf(),
        store::accepting(old(store)@, now),
    ensures
        final(store).wf(),
        store::accepting(final(store)@, now),
        final(store)@ == fed(old(store)@, memory_points(node@, Some(*memory)), now),
{
    let ghost first = store@;
    let pairs = [("kubernetes_node", node), ("instance", node), ("node", node)];
    proof {
        assert(store::pair_views(pairs@) =~= node_pairs(node@));
    }
    let zero = double::from_int(0);
    let available = match memory.available_bytes {
        Some(v) => v,
        None => zero,
    };
    let working_set = match memory.working_set_bytes {
        Some(v) => v,
        None => match memory.usage_bytes {
            Some(v) => v,
            None => zero,
        },
    };
    let total = double::plus(available, working_set);
    put(store, "node_memory_MemTotal_bytes", &pairs, now, total);
    put(store, "node_memory_MemFree_bytes", &pairs, now, available);
    put(store, "node_memory_Buffers_bytes", &pairs, now, zero);
    put(store, "node_memory_Cached_bytes", &pairs, now, zero);
    proof {
        let all = memory_points(node@, Some(*memory));
        let a = seq![all[0]];
        let b = seq![all[1]];
        let c = seq![all[2]];
        let d = seq![all[3]];
        law_feeding_goes_on(first, a, b, now);
        law_feeding_goes_on(first, a + b, c, now);
        law_feeding_goes_on(first, a + b + c, d, now);
        assert(a + b + c + d =~= all);
    }
}

/// The processor seconds of a usage, if it has them.
fn cpu_seconds(cpu: &Option<kube::CpuStats>) -> (r: Option<u64>)
    ensures
        r == (match *cpu {
            Some(cpu) => match cpu.usage_core_nano_seconds {
                Some(nanos) => Some(seconds(nanos)),
                None => None,
            },
            None => None,
        }),
{
    match cpu {
        Some(cpu) => match cpu.usage_core_nano_seconds {
            Some(nanos) => Some(double::over(nanos, double::from_int(1_000_000_000))),
            None => None,
        },
        None => None,
    }
}

/// What a filesystem has in use.
fn used_bytes(fs: &Option<FsStats>) -> (r: Option<u64>)
    ensures
        r == used(*fs),
{
    match fs {
        Some(fs) => fs.used_bytes,
        None => None,
    }
}

/// Takes what a kubelet says of the node itself in.
fn collect_node(store: &mut Store, node: &str, stats: &NodeStats, now: i64)
    requires
        old(store).wf(),
        store::accepting(old(store)@, now),
    ensures
        final(store).wf(),
        store::accepting(final(store)@, now),
        final(store)@ == fed(
            old(store)@,
            memory_points(node@, stats.memory) + cpu_points(node@, *stats) + fs_points(
                node@,
                stats.fs,
            ),
            now,
        ),
{
    let ghost first = store@;
    let ghost memory = memory_points(node@, stats.memory);
    let ghost cpu = cpu_points(node@, *stats);
    let ghost fs = fs_points(node@, stats.fs);
    proof {
        law_feeding_goes_on(first, memory, cpu, now);
        law_feeding_goes_on(first, memory + cpu, fs, now);
    }
    match &stats.memory {
        Some(memory) => collect_memory(store, node, memory, now),
        None => {},
    }
    let pairs = [
        ("kubernetes_node", node),
        ("instance", node),
        ("node", node),
        ("mode", "user"),
        ("cpu", "0"),
    ];
    proof {
        assert(store::pair_views(pairs@) =~= node_pairs(node@) + seq![
            ("mode"@, "user"@),
            ("cpu"@, "0"@),
        ]);
    }
    put_if(store, "node_cpu_seconds_total", &pairs, now, cpu_seconds(&stats.cpu));
    match &stats.fs {
        Some(held) => {
            let ghost before = store@;
            let pairs = [
                ("kubernetes_node", node),
                ("instance", node),
                ("node", node),
                ("mountpoint", "/"),
            ];
            let ghost wanted = node_pairs(node@) + seq![("mountpoint"@, "/"@)];
            proof {
                assert(store::pair_views(pairs@) =~= wanted);
                law_feeding_goes_on(
                    before,
                    point_if("node_filesystem_size_bytes"@, wanted, held.capacity_bytes),
                    point_if("node_filesystem_avail_bytes"@, wanted, held.available_bytes),
                    now,
                );
            }
            put_if(store, "node_filesystem_size_bytes", &pairs, now, held.capacity_bytes);
            put_if(store, "node_filesystem_avail_bytes", &pairs, now, held.available_bytes);
        },
        None => {},
    }
}

/// Takes a container's usage in, and says whether its image is known.
fn collect_container(
    store: &mut Store,
    node: &str,
    pod: &PodStats,
    container: &ContainerStats,
    images: &Images,
    now: i64,
) -> (known: bool)
    requires
        old(store).wf(),
        store::accepting(old(store)@, now),
    ensures
        final(store).wf(),
        store::accepting(final(store)@, now),
        final(store)@ == fed(old(store)@, usage_points(node@, *pod, *container, images@), now),
        known == (known_image(
            images@,
            pod.pod_ref.namespace@,
            pod.pod_ref.name@,
            container.name@,
        ) is Some),
{
    let ghost first = store@;
    let namespace = pod.pod_ref.namespace.as_str();
    let name = pod.pod_ref.name.as_str();
    let found = images.known(namespace, name, container.name.as_str());
    let known = found.is_some();
    let image = match found {
        Some(image) => image,
        None => UNKNOWN_IMAGE,
    };
    let pairs = [
        ("namespace", namespace),
        ("pod", name),
        ("container", container.name.as_str()),
        ("image", image),
        ("instance", node),
    ];
    let ghost wanted = seq![
        ("namespace"@, pod.pod_ref.namespace@),
        ("pod"@, pod.pod_ref.name@),
        ("container"@, container.name@),
        (
            "image"@,
            shown_image(
                images@,
                pod.pod_ref.namespace@,
                pod.pod_ref.name@,
                container.name@,
            ),
        ),
        ("instance"@, node@),
    ];
    let cpu = cpu_seconds(&container.cpu);
    let memory = match &container.memory {
        Some(memory) => match memory.working_set_bytes {
            Some(v) => Some(v),
            None => memory.usage_bytes,
        },
        None => None,
    };
    let rootfs = used_bytes(&container.rootfs);
    let logs = used_bytes(&container.logs);
    let zero = double::from_int(0);
    let disk = if rootfs.is_some() || logs.is_some() {
        Some(
            double::plus(
                match rootfs {
                    Some(v) => v,
                    None => zero,
                },
                match logs {
                    Some(v) => v,
                    None => zero,
                },
            ),
        )
    } else {
        None
    };
    proof {
        assert(store::pair_views(pairs@) =~= wanted);
        let a = point_if("container_cpu_usage_seconds_total"@, wanted, cpu);
        let b = point_if("container_memory_working_set_bytes"@, wanted, memory);
        let c = point_if("container_fs_usage_bytes"@, wanted, disk);
        law_feeding_goes_on(first, a, b, now);
        law_feeding_goes_on(first, a + b, c, now);
    }
    put_if(store, "container_cpu_usage_seconds_total", &pairs, now, cpu);
    put_if(store, "container_memory_working_set_bytes", &pairs, now, memory);
    put_if(store, "container_fs_usage_bytes", &pairs, now, disk);
    known
}

/// Takes a pod's network in.
fn collect_network(store: &mut Store, node: &str, pod: &PodStats, now: i64)
    requires
        old(store).wf(),
        store::accepting(old(store)@, now),
    ensures
        final(store).wf(),
        store::accepting(final(store)@, now),
        final(store)@ == fed(old(store)@, network_points(node@, *pod), now),
{
    match &pod.network {
        None => {},
        Some(network) => {
            let ghost first = store@;
            let pairs = [
                ("namespace", pod.pod_ref.namespace.as_str()),
                ("pod", pod.pod_ref.name.as_str()),
                ("instance", node),
            ];
            let ghost wanted = seq![
                ("namespace"@, pod.pod_ref.namespace@),
                ("pod"@, pod.pod_ref.name@),
                ("instance"@, node@),
            ];
            proof {
                assert(store::pair_views(pairs@) =~= wanted);
                law_feeding_goes_on(
                    first,
                    point_if("container_network_receive_bytes_total"@, wanted, network.rx_bytes),
                    point_if("container_network_transmit_bytes_total"@, wanted, network.tx_bytes),
                    now,
                );
            }
            put_if(
                store,
                "container_network_receive_bytes_total",
                &pairs,
                now,
                network.rx_bytes,
            );
            put_if(
                store,
                "container_network_transmit_bytes_total",
                &pairs,
                now,
                network.tx_bytes,
            );
        },
    }
}

/// Takes a volume in.
fn collect_volume(store: &mut Store, volume: &VolumeStats, now: i64)
    requires
        old(store).wf(),
        store::accepting(old(store)@, now),
    ensures
        final(store).wf(),
        store::accepting(final(store)@, now),
        final(store)@ == fed(old(store)@, volume_points(*volume), now),
{
    match &volume.pvc_ref {
        None => {},
        Some(pvc) => {
            let ghost first = store@;
            let pairs = [
                ("persistentvolumeclaim", pvc.name.as_str()),
                ("namespace", pvc.namespace.as_str()),
            ];
            let ghost wanted = seq![
                ("persistentvolumeclaim"@, pvc.name@),
                ("namespace"@, pvc.namespace@),
            ];
            proof {
                assert(store::pair_views(pairs@) =~= wanted);
                law_feeding_goes_on(
                    first,
                    point_if("kubelet_volume_stats_used_bytes"@, wanted, volume.used_bytes),
                    point_if("kubelet_volume_stats_capacity_bytes"@, wanted, volume.capacity_bytes),
                    now,
                );
            }
            put_if(store, "kubelet_volume_stats_used_bytes", &pairs, now, volume.used_bytes);
            put_if(
                store,
                "kubelet_volume_stats_capacity_bytes",
                &pairs,
                now,
                volume.capacity_bytes,
            );
        },
    }
}

/// Takes a pod that a kubelet reports in. Returns how many of its
/// containers have no image that is known.
fn collect_reported(store: &mut Store, node: &str, pod: &PodStats, images: &Images, now: i64) -> (
    unnamed: usize)
    requires
        old(store).wf(),
        store::accepting(old(store)@, now),
    ensures
        final(store).wf(),
        store::accepting(final(store)@, now),
        final(store)@ == fed(old(store)@, reported_points(node@, *pod, images@), now),
        unnamed == unknown_in(*pod, pod.containers@, images@),
{
    let ghost first = store@;
    let containers = &pod.containers;
    let mut unnamed: usize = 0;
    let mut i: usize = 0;
    proof {
        assert(containers@.take(0) =~= seq![]);
    }
    while i < containers.len()
        invariant
            i <= containers@.len(),
            unnamed <= i,
            store.wf(),
            store::accepting(store@, now),
            store@ == fed(
                first,
                all_usage_points(node@, *pod, containers@.take(i as int), images@),
                now,
            ),
            unnamed == unknown_in(*pod, containers@.take(i as int), images@),
        decreases containers@.len() - i,
    {
        proof {
            assert(containers@.take(i + 1).drop_last() =~= containers@.take(i as int));
            law_feeding_goes_on(
                first,
                all_usage_points(node@, *pod, containers@.take(i as int), images@),
                usage_points(node@, *pod, containers@[i as int], images@),
                now,
            );
        }
        if !collect_container(store, node, pod, &containers[i], images, now) {
            unnamed += 1;
        }
        i += 1;
    }
    let ghost usage = all_usage_points(node@, *pod, containers@, images@);
    let ghost network = network_points(node@, *pod);
    proof {
        assert(containers@.take(i as int) =~= containers@);
        law_feeding_goes_on(first, usage, network, now);
    }
    collect_network(store, node, pod, now);
    let volumes = &pod.volume;
    let ghost so_far = usage + network;
    let mut i: usize = 0;
    proof {
        assert(volumes@.take(0) =~= seq![]);
        assert(so_far + all_volume_points(volumes@.take(0)) =~= so_far);
    }
    while i < volumes.len()
        invariant
            i <= volumes@.len(),
            store.wf(),
            store::accepting(store@, now),
            store@ == fed(first, so_far + all_volume_points(volumes@.take(i as int)), now),
        decreases volumes@.len() - i,
    {
        let ghost before = so_far + all_volume_points(volumes@.take(i as int));
        collect_volume(store, &volumes[i], now);
        proof {
            assert(volumes@.take(i + 1).drop_last() =~= volumes@.take(i as int));
            law_feeding_goes_on(first, before, volume_points(volumes@[i as int]), now);
            assert(before + volume_points(volumes@[i as int]) =~= so_far + all_volume_points(
                volumes@.take(i + 1),
            ));
        }
        i += 1;
    }
    proof {
        assert(volumes@.take(i as int) =~= volumes@);
    }
    unnamed
}

/// Takes what a kubelet reports in. Returns how many containers it reported
/// that have no image that is known, as far as a `usize` reaches.
pub fn collect_node_stats(
    store: &mut Store,
    node: &str,
    stats: &StatsSummary,
    images: &Images,
    now: i64,
) -> (unnamed: usize)
    requires
        old(store).wf(),
        store::accepting(old(store)@, now),
    ensures
        final(store).wf(),
        store::accepting(final(store)@, now),
        final(store)@ == fed(old(store)@, stats_points(node@, *stats, images@), now),
        unnamed == crate::series::capped(unknown_images(stats.pods@, images@) as int),
{
    let ghost first = store@;
    let pods = &stats.pods;
    let ghost own = memory_points(node@, stats.node.memory) + cpu_points(node@, stats.node)
        + fs_points(node@, stats.node.fs);
    let ghost running = seq![
        (
            store::labelled("kubelet_running_pods"@, seq![("instance"@, node@)]),
            double::of_int(pods@.len() as int),
        ),
    ];
    collect_node(store, node, &stats.node, now);
    let pairs = [("instance", node)];
    proof {
        assert(store::pair_views(pairs@) =~= seq![("instance"@, node@)]);
        law_feeding_goes_on(first, own, running, now);
    }
    put(store, "kubelet_running_pods", &pairs, now, double::from_count(pods.len() as u64));
    let ghost so_far = own + running;
    let mut unnamed: usize = 0;
    let mut i: usize = 0;
    proof {
        assert(pods@.take(0) =~= seq![]);
        assert(so_far + all_reported_points(node@, pods@.take(0), images@) =~= so_far);
    }
    while i < pods.len()
        invariant
            i <= pods@.len(),
            store.wf(),
            store::accepting(store@, now),
            store@ == fed(
                first,
                so_far + all_reported_points(node@, pods@.take(i as int), images@),
                now,
            ),
            unnamed == crate::series::capped(
                unknown_images(pods@.take(i as int), images@) as int,
            ),
        decreases pods@.len() - i,
    {
        let ghost before = so_far + all_reported_points(node@, pods@.take(i as int), images@);
        let more = collect_reported(store, node, &pods[i], images, now);
        proof {
            assert(pods@.take(i + 1).drop_last() =~= pods@.take(i as int));
            law_feeding_goes_on(
                first,
                before,
                reported_points(node@, pods@[i as int], images@),
                now,
            );
            assert(before + reported_points(node@, pods@[i as int], images@) =~= so_far
                + all_reported_points(node@, pods@.take(i + 1), images@));
        }
        unnamed = crate::series::capped_sum(unnamed, more);
        i += 1;
    }
    proof {
        assert(pods@.take(i as int) =~= pods@);
    }
    unnamed
}

/// The held pod list after a scrape: stale from then on if a container was
/// met that it has no image for.
pub open spec fn after_scrape(
    held: CacheView,
    nodes: Seq<Node>,
    stats: Seq<Option<StatsSummary>>,
) -> CacheView {
    CacheView {
        pods: held.pods,
        fetched_at: held.fetched_at,
        stale: held.stale || unknown_on(nodes, stats, images_of(held.pods)) > 0,
    }
}

/// Takes a whole scrape in: the resource series of the held pods, and for
/// each node its own, what its kubelet reported if it answered, and whether
/// it did.
///
/// A container that a kubelet reports and the held pods have no image for
/// means that they are stale in the way that matters.
pub fn collect(
    store: &mut Store,
    now: i64,
    cache: &mut PodCache,
    nodes: &List<Node>,
    stats: &Vec<Option<StatsSummary>>,
)
    requires
        old(store).wf(),
        store::accepting(old(store)@, now),
        stats@.len() == nodes.items@.len(),
    ensures
        final(store).wf(),
        store::accepting(final(store)@, now),
        final(store)@ == fed(
            old(store)@,
            scraped(old(cache)@.pods, nodes.items@, stats@),
            now,
        ),
        final(cache)@ == after_scrape(old(cache)@, nodes.items@, stats@),
{
    let ghost first = store@;
    let ghost pods = cache@.pods;
    let images = Images::of(&cache.pods.items);
    collect_pods(store, &cache.pods.items, now);
    let items = &nodes.items;
    let ghost held = pods_points(pods);
    let mut unnamed: usize = 0;
    let mut i: usize = 0;
    proof {
        assert(items@.take(0) =~= seq![]);
        assert(held + nodes_points(items@.take(0), stats@, images@) =~= held);
    }
    while i < items.len()
        invariant
            i <= items@.len(),
            items@.len() == stats@.len(),
            store.wf(),
            store::accepting(store@, now),
            store@ == fed(
                first,
                held + nodes_points(items@.take(i as int), stats@, images@),
                now,
            ),
            unnamed > 0 <==> unknown_on(items@.take(i as int), stats@, images@) > 0,
        decreases items@.len() - i,
    {
        let node = &items[i];
        let name = node.metadata.name.as_str();
        let ghost before = held + nodes_points(items@.take(i as int), stats@, images@);
        let ghost capacity = status_points(
            "kube_node_status_capacity"@,
            node.status.capacity@,
            node.metadata.name@,
        );
        let ghost allocatable = status_points(
            "kube_node_status_allocatable"@,
            node.status.allocatable@,
            node.metadata.name@,
        );
        proof {
            assert(items@.take(i + 1).drop_last() =~= items@.take(i as int));
            law_feeding_goes_on(first, before, capacity, now);
            law_feeding_goes_on(first, before + capacity, allocatable, now);
            assert(before + capacity + allocatable =~= before + node_points(*node));
        }
        collect_status(store, "kube_node_status_capacity", &node.status.capacity, name, now);
        collect_status(store, "kube_node_status_allocatable", &node.status.allocatable, name, now);
        let pairs = [("instance", name), ("job", "kubeloupe")];
        proof {
            assert(store::pair_views(pairs@) =~= seq![("instance"@, name@), ("job"@, "kubeloupe"@)]);
        }
        let ghost base = before + node_points(*node);
        match &stats[i] {
            Some(reported) => {
                let more = collect_node_stats(store, name, reported, &images, now);
                put(store, "up", &pairs, now, double::from_int(1));
                proof {
                    let points = stats_points(name@, *reported, images@);
                    let up = up_point(name@, true);
                    law_feeding_goes_on(first, base, points, now);
                    law_feeding_goes_on(first, base + points, seq![up], now);
                    assert(base + points + seq![up] =~= held + nodes_points(
                        items@.take(i + 1),
                        stats@,
                        images@,
                    ));
                }
                unnamed = crate::series::capped_sum(unnamed, more);
            },
            None => {
                put(store, "up", &pairs, now, double::from_int(0));
                proof {
                    let up = up_point(name@, false);
                    law_feeding_goes_on(first, base, seq![up], now);
                    assert(base + seq![up] =~= held + nodes_points(
                        items@.take(i + 1),
                        stats@,
                        images@,
                    ));
                }
            },
        }
        i += 1;
    }
    proof {
        assert(items@.take(i as int) =~= items@);
    }
    if unnamed > 0 {
        cache.stale = true;
    }
}

/// What is published of a node's memory is chosen so that the arithmetic
/// performed on it comes out right: total less free, buffers and cached is
/// the working set, or the usage where no working set is reported, and what
/// is not reported at all counts as zero.
pub proof fn law_memory_in_use_is_the_working_set(
    node: Seq<char>,
    memory: MemoryStats,
    available: int,
    working_set: int,
)
    requires
        0 <= available,
        0 <= working_set,
        available + working_set <= 0x20_0000_0000_0000,
        or_zero(memory.available_bytes) == double::of_int(available),
        or_zero(either(memory.working_set_bytes, memory.usage_bytes)) == double::of_int(working_set),
    ensures
        memory_points(node, Some(memory)).len() == 4,
        double::difference(
            memory_points(node, Some(memory))[0].1,
            double::sum(
                double::sum(
                    memory_points(node, Some(memory))[1].1,
                    memory_points(node, Some(memory))[2].1,
                ),
                memory_points(node, Some(memory))[3].1,
            ),
        ) == double::of_int(working_set),
{
    double::law_small_integers_add(available, working_set);
    double::law_small_integers_add(available, 0);
}

/// No container's series carry an empty image, so that none is dropped by
/// what filters on one.
pub proof fn law_image_is_never_empty(
    images: Seq<Image>,
    namespace: Seq<char>,
    pod: Seq<char>,
    container: Seq<char>,
)
    ensures
        shown_image(images, namespace, pod, container).len() > 0,
{
    reveal_strlit("unknown");
}

/// A scrape that met a container it could not name makes the next one fetch
/// the pod list, however soon it comes.
pub proof fn law_unknown_container_forces_a_refresh(
    held: CacheView,
    nodes: Seq<Node>,
    stats: Seq<Option<StatsSummary>>,
    now: i64,
    every: i64,
)
    requires
        unknown_on(nodes, stats, images_of(held.pods)) > 0,
    ensures
        refresh_due(Some(after_scrape(held, nodes, stats)), now, every),
{
}

/// After a scrape the pod list is stale if the scrape met a container it
/// could not name, or if the list was stale before and none came in its
/// place. One that is stale is due at once, whatever the interval.
pub proof fn law_staleness_lasts_until_a_list_comes(
    held: Option<CacheView>,
    fetched: Option<Seq<Pod>>,
    nodes: Seq<Node>,
    stats: Seq<Option<StatsSummary>>,
    now: i64,
    every: i64,
)
    requires
        after_asking(held, now, every, fetched) is Some,
    ensures
        ({
            let asked = after_asking(held, now, every, fetched)->0;
            let out = after_scrape(asked, nodes, stats);
            let refreshed = refresh_due(held, now, every) && fetched is Some;
            &&& out.stale <==> unknown_on(nodes, stats, images_of(asked.pods)) > 0 || (!refreshed && (
            held matches Some(was) && was.stale))
            &&& out.stale ==> forall|t: i64, interval: i64| #[trigger]
                refresh_due(Some(out), t, interval)
        }),
{
}

} // verus!
