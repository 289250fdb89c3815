//! Series, chunks, the store and its snapshots.

use kubeloupe::chunk;
use kubeloupe::chunk::{Chunk, ChunkError};
use kubeloupe::keyed::Keyed;
use kubeloupe::loader::Loader;
use kubeloupe::promql::{eval, parser};
use kubeloupe::snapshot;
use kubeloupe::snapshot::{Restored, SnapshotError};
use kubeloupe::store::{canonical_key, labels, Labels, Sample, Store};
use kubeloupe::textmap::TextMap;

fn sample(t: i64, v: f64) -> Sample {
    Sample { t, v: v.to_bits() }
}

fn named(name: &str) -> Labels {
    labels(name, &[("pod", "api-1")])
}

fn decoded(chunk: &Chunk) -> Result<Vec<Sample>, ChunkError> {
    let mut out = Vec::new();
    chunk::decode_into(chunk, &mut out).map(|()| out)
}

#[test]
fn a_chunk_says_what_it_holds() {
    let samples: Vec<Sample> = (0..7).map(|i| sample(100 + i * 30, i as f64)).collect();
    let chunk = chunk::encode(&samples);
    assert_eq!(chunk.first_t(), 100);
    assert_eq!(chunk.last_t(), 280);
    assert_eq!(chunk.len(), 7);
    assert_eq!(chunk.count(), 7);
    assert_eq!(chunk.heap_size(), chunk.raw_bytes().len());
    let again = Chunk::from_parts(100, 280, 7, chunk.raw_bytes().into());
    assert_eq!(decoded(&again), Ok(samples));
}

#[test]
fn extreme_gaps_and_values_still_come_back() {
    let samples = vec![
        sample(i64::MIN, -0.0),
        sample(-1, 9e18),
        sample(0, -9e18),
        sample(i64::MAX, 1.0),
    ];
    let chunk = chunk::encode(&samples);
    assert_eq!(decoded(&chunk), Ok(samples));
}

#[test]
fn every_way_a_chunk_can_be_wrong_is_told_apart() {
    let fails = |count: u32, first_t: i64, bytes: Vec<u8>| {
        decoded(&Chunk::from_parts(first_t, first_t, count, bytes.into_boxed_slice())).expect_err("an error")
    };
    assert_eq!(fails(1, 0, vec![]), ChunkError::EndedEarly);
    assert_eq!(fails(2, 0, vec![0]), ChunkError::EndedEarly);
    let mut long = vec![0u8];
    long.extend([0xff; 11]);
    assert_eq!(fails(2, 0, long), ChunkError::VarintTooLong);
    // One run of three where one is due, and one of one where two are.
    assert_eq!(fails(2, 0, vec![1, 1, 2, 3]), ChunkError::RunsTooLong);
    assert_eq!(fails(3, 0, vec![1, 1, 2, 1]), ChunkError::RunsTooShort);
    assert_eq!(fails(1, 0, vec![9]), ChunkError::UnknownStream(9));
    assert_eq!(fails(2, i64::MAX, vec![0, 2]), ChunkError::TimestampOverflow);
    assert_eq!(fails(1, 0, vec![0, 0, 200]), ChunkError::ScaleOutOfRange(200));
    let mut over = vec![0u8, 2, 0, 0];
    // The largest first value, and then one more.
    over.extend([0xfe, 0xff, 0xff, 0xff, 0xff, 0xff, 0xff, 0xff, 0xff, 0x01]);
    over.extend([0, 2]);
    assert_eq!(fails(2, 0, over), ChunkError::ValueOverflow);
    assert_eq!(fails(1, 0, vec![0, 1, 0, 0]), ChunkError::EndedMidValue);
    assert_eq!(fails(1, 0, vec![0, 7]), ChunkError::UnknownValues(7));
    assert_eq!(ChunkError::UnknownValues(7).message(), "unknown chunk value mode 7");
    assert_eq!(
        ChunkError::ScaleOutOfRange(200).message(),
        "chunk scale 200 out of range"
    );
    assert_eq!(ChunkError::EndedEarly.message(), "chunk ended early");
}

#[test]
fn labels_are_ordered_and_skip_empties() {
    let l = labels("m", &[("z", "1"), ("a", "2"), ("gone", ""), ("z", "3")]);
    let entries: Vec<(&str, &str)> = l
        .entries()
        .iter()
        .map(|(k, v)| (k.as_str(), v.as_str()))
        .collect();
    assert_eq!(entries, [("__name__", "m"), ("a", "2"), ("z", "3")]);
    assert_eq!(
        canonical_key(&l),
        "__name__\u{1}m\u{2}a\u{1}2\u{2}z\u{1}3\u{2}"
    );
}

#[test]
fn a_map_keeps_its_order_and_its_other_entries() {
    let mut map = TextMap::new();
    for (k, v) in [("b", "1"), ("a", "2"), ("c", "3"), ("b", "4")] {
        map.insert(k.to_string(), v.to_string());
    }
    assert_eq!(map.len(), 3);
    assert_eq!(map.get("b").map(String::as_str), Some("4"));
    assert_eq!(map.get("x"), None);
    let copy = map.copy();
    assert!(copy.same(&map));
    let less = map.without("a");
    assert!(!less.same(&map));
    assert_eq!(less.get("a"), None);
    assert_eq!(less.get("c").map(String::as_str), Some("3"));
    let mut other = TextMap::new();
    for (k, v) in [("c", "3"), ("b", "4"), ("a", "2")] {
        other.insert(k.to_string(), v.to_string());
    }
    assert!(other.same(&map));
}

#[test]
fn keyed_values_keep_the_order_in_which_they_came() {
    let mut keyed: Keyed<u64> = Keyed::new();
    for (k, v) in [("b", 1), ("a", 2), ("c", 3), ("a", 4)] {
        keyed.put(k.to_string(), v);
    }
    assert_eq!(keyed.len(), 3);
    assert_eq!(keyed.get("a"), Some(&4));
    assert_eq!(keyed.find("c"), Some(2));
    *keyed.at_mut(2) = 5;
    keyed.remove(0);
    assert_eq!(keyed.get("b"), None);
    assert_eq!(keyed.find("a"), Some(0));
    assert_eq!(*keyed.at(1), 5);
    let entries = keyed.into_entries();
    assert_eq!(entries, [("a".to_string(), 4), ("c".to_string(), 5)]);
    assert_eq!(Keyed::from_entries(entries).find("c"), Some(1));
}

#[test]
fn a_sample_is_added_once_and_one_that_is_not_later_is_ignored() {
    let mut store = Store::new(86_400);
    store.append(named("m"), 100, 1.0f64.to_bits());
    store.append(named("other"), 100, 9.0f64.to_bits());
    store.append(named("m"), 130, 2.0f64.to_bits());
    // A duplicate, and one out of order.
    store.append(named("m"), 130, 3.0f64.to_bits());
    store.append(named("m"), 110, 4.0f64.to_bits());
    assert_eq!(store.series_count(), 2);
    assert_eq!(store.sample_count(), 3);
    let m = store.candidates(Some("m"));
    assert_eq!(m.len(), 1);
    assert_eq!(m[0].samples(), [sample(100, 1.0), sample(130, 2.0)]);
    assert!(store.accepts(200));
    assert!(store.accepts(i64::MAX));
    let mut old = Store::new(86_400);
    old.append(named("m"), -10, 1.0f64.to_bits());
    assert!(!old.accepts(i64::MAX));
    assert!(old.accepts(0));
}

#[test]
fn a_series_seals_by_length_and_by_span() {
    let mut store = Store::new(86_400);
    for i in 0..120 {
        store.append(named("long"), i * 30, (i as f64).to_bits());
    }
    // A gap of an eighth of the retention.
    store.append(named("wide"), 0, 0);
    store.append(named("wide"), 86_400 / 8, 0);
    for series in store.series_iter() {
        assert_eq!(series.sealed_chunks().len(), 1);
        assert!(series.head().is_empty());
        assert!(!series.is_empty());
        assert_eq!(series.samples().len(), series.len());
        assert!(series.heap_size() > 0);
    }
}

#[test]
fn pruning_takes_chunks_whole_and_trims_the_head() {
    let mut store = Store::new(600);
    // A chunk from 0 to 90, and a head from 120 to 150.
    for t in [0, 30, 60, 90, 120, 150] {
        store.append(named("m"), t, 1.0f64.to_bits());
    }
    store.append(named("other"), 700, 1.0f64.to_bits());
    store.prune(650);
    let m = store.candidates(Some("m"));
    // Fifty is past the first two samples, but not past their chunk.
    assert_eq!(m[0].first_t(), Some(0));
    assert_eq!(m[0].last_t(), Some(150));
    store.prune(735);
    let m = store.candidates(Some("m"));
    assert_eq!(m[0].samples(), [sample(150, 1.0)]);
    store.prune(751);
    assert!(store.candidates(Some("m")).is_empty());
    assert_eq!(store.series_count(), 1);
}

#[test]
fn a_stale_sample_does_not_answer() {
    let mut store = Store::new(86_400);
    store.append(named("m"), 1_000, 7.0f64.to_bits());
    let series = store.series_iter();
    assert_eq!(series[0].value_at(999, 300), None);
    assert_eq!(series[0].value_at(1_000, 300), Some(7.0f64.to_bits()));
    assert_eq!(series[0].value_at(1_300, 300), Some(7.0f64.to_bits()));
    assert_eq!(series[0].value_at(1_301, 300), None);
    assert_eq!(series[0].range_at(1_000, 1), [sample(1_000, 7.0)]);
    assert!(series[0].range_at(1_001, 1).is_empty());
}

#[test]
fn the_list_of_names_finds_what_a_walk_finds() {
    let mut store = Store::new(600);
    for pod in ["c", "a", "b"] {
        for name in ["x", "y"] {
            let l = labels(name, &[("pod", pod)]);
            store.append(l, if pod == "a" { 0 } else { 500 }, 1.0f64.to_bits());
        }
    }
    store.prune(700);
    let answers = |query: &str| {
        let expr = parser::parse(query).expect(query);
        let points = eval::eval(&store, &expr, 600).into_vector();
        let pods: Vec<String> = points
            .iter()
            .map(|(l, _)| l.get("pod").expect("a pod").clone())
            .collect();
        pods
    };
    assert_eq!(answers("x"), ["c", "b"]);
    assert_eq!(answers("{__name__=~\"x\"}"), answers("x"));
}

#[test]
fn sums_fold_and_group() {
    let mut store = Store::new(86_400);
    for (pod, node, v) in [("a", "n1", 1.0f64), ("b", "n1", 2.0), ("c", "n2", 4.0)] {
        store.append(labels("m", &[("pod", pod), ("node", node)]), 0, v.to_bits());
    }
    let value = |query: &str| {
        let expr = parser::parse(query).expect(query);
        let points = eval::eval(&store, &expr, 0).into_vector();
        let values: Vec<f64> = points.iter().map(|(_, v)| f64::from_bits(*v)).collect();
        values
    };
    assert_eq!(value("sum(m)"), [7.0]);
    // Nothing carries this label.
    assert_eq!(value("sum(m) by (kubernetes_name)"), [7.0]);
    assert_eq!(value("sum(m) by (node)"), [3.0, 4.0]);
    assert_eq!(value("m * 2"), [2.0, 4.0, 8.0]);
    assert_eq!(value("10 - m"), [9.0, 8.0, 6.0]);
    assert_eq!(value("m{pod=\"a\"} + m"), [2.0]);
    assert!(value("sum(absent)").is_empty());
    assert!(matches!(
        eval::eval(&store, &parser::parse("1 + 2 * 3").expect("parses"), 0),
        eval::Value::Scalar(v) if v == 7.0f64.to_bits()
    ));
}

#[test]
fn a_range_leaves_out_what_is_not_finite() {
    let mut store = Store::new(86_400);
    for (t, v) in [(0, 0.0f64), (60, 2.0), (120, 0.0)] {
        store.append(named("m"), t, v.to_bits());
    }
    let expr = parser::parse("4 / m").expect("parses");
    let out = eval::query_range(&store, &expr, 0, 120, 60);
    assert_eq!(out.len(), 1);
    assert_eq!(out[0].values, [(60, 2.0f64.to_bits())]);
    // A step below one is a step of one.
    let out = eval::query_range(&store, &parser::parse("m").expect("parses"), 60, 62, 0);
    assert_eq!(out[0].values.len(), 3);
}

fn filled() -> Store {
    let mut store = Store::new(86_400);
    for i in 0..300 {
        store.append(named("m"), i * 30, (i as f64).to_bits());
        store.append(named("n"), i * 30, (i as f64 * 0.37).to_bits());
    }
    store
}

#[test]
fn a_restored_store_answers_as_the_store_would_have() {
    let mut store = filled();
    let now = 91_400;
    let restored = snapshot::load(&snapshot::save(&store), 86_400, now).expect("loads");
    store.prune(now);
    assert!(store.sample_count() < 600);
    assert_eq!(restored.series_count(), store.series_count());
    assert_eq!(restored.sample_count(), store.sample_count());
    for query in ["m", "sum(m) - sum(n)", "rate(n[5m])", "{__name__=~\"m|n\"}"] {
        let expr = parser::parse(query).expect(query);
        for t in [3_000, 8_500, 8_970] {
            let a = eval::eval(&store, &expr, t).into_vector();
            let b = eval::eval(&restored, &expr, t).into_vector();
            assert_eq!(a.len(), b.len(), "{query} at {t}");
            for (x, y) in a.iter().zip(&b) {
                assert!(x.0.same(&y.0) && x.1 == y.1, "{query} at {t}");
            }
        }
    }
}

#[test]
fn a_snapshot_is_its_header_and_its_records() {
    let store = filled();
    let mut file = snapshot::header(store.series_count());
    for series in store.series_iter() {
        file.extend(snapshot::record(series));
    }
    assert_eq!(file, snapshot::save(&store));
    assert_eq!(file[..10], [b'L', b'M', b'D', b'1', 2, 0, 2, 0, 0, 0]);
}

#[test]
fn a_snapshot_that_cannot_be_read_costs_history_and_nothing_else() {
    let (store, outcome) = snapshot::restore(None, 600);
    assert!(matches!(outcome, Restored::Absent));
    assert_eq!(store.series_count(), 0);
    let (store, outcome) = snapshot::restore(Some(snapshot::load(b"XXXX", 600, 0)), 600);
    assert!(matches!(
        outcome,
        Restored::Unreadable(SnapshotError::NotASnapshot)
    ));
    assert_eq!(store.series_count(), 0);
    let file = snapshot::save(&filled());
    let (store, outcome) = snapshot::restore(Some(snapshot::load(&file, 86_400, 0)), 86_400);
    assert!(matches!(outcome, Restored::Loaded));
    assert_eq!(store.sample_count(), 600);
}

/// A file with one series without labels, up to its chunk count or, in the
/// raw layout, its sample count.
fn one_series(version: u8) -> Vec<u8> {
    vec![b'L', b'M', b'D', b'1', version, 0, 1, 0, 0, 0, 0, 0]
}

fn with(mut file: Vec<u8>, parts: &[&[u8]]) -> Vec<u8> {
    for part in parts {
        file.extend_from_slice(part);
    }
    file
}

fn chunk_bytes(first_t: i64, last_t: i64, chunk: &Chunk) -> Vec<u8> {
    with(
        Vec::new(),
        &[
            &first_t.to_le_bytes(),
            &last_t.to_le_bytes(),
            &chunk.count().to_le_bytes(),
            &(chunk.raw_bytes().len() as u32).to_le_bytes(),
            chunk.raw_bytes(),
        ],
    )
}

#[test]
fn every_way_a_snapshot_can_be_wrong_is_told_apart() {
    let fails = |file: &[u8]| match snapshot::load(file, 86_400, 0) {
        Err(e) => e,
        Ok(_) => panic!("{file:?} loads"),
    };
    let n = |n: u32| n.to_le_bytes();
    assert_eq!(fails(b"LM"), SnapshotError::NoHeader);
    assert_eq!(fails(b"LMD2"), SnapshotError::NotASnapshot);
    assert_eq!(fails(b"LMD1\x02"), SnapshotError::UnexpectedEnd);
    assert_eq!(fails(b"LMD1\x03\0"), SnapshotError::UnsupportedVersion(3));
    assert_eq!(
        fails(&with(b"LMD1\x02\0".to_vec(), &[&n(1_000_001)])),
        SnapshotError::SeriesCount(1_000_001)
    );
    assert_eq!(
        fails(b"LMD1\x02\0\x01\0\0\0\x01\x01"),
        SnapshotError::LabelCount(257)
    );
    assert_eq!(
        fails(b"LMD1\x02\0\x01\0\0\0\x01\0\x01\x10"),
        SnapshotError::StringLength(4097)
    );
    assert_eq!(
        fails(b"LMD1\x02\0\x01\0\0\0\x01\0\x02\0a"),
        SnapshotError::LabelEndedEarly
    );
    assert_eq!(
        fails(b"LMD1\x02\0\x01\0\0\0\x01\0\x02\0\xc3\x28"),
        SnapshotError::LabelNotText
    );
    assert_eq!(
        fails(&with(one_series(1), &[&n(10_000_001)])),
        SnapshotError::SampleCount(10_000_001)
    );
    let mut wide = with(one_series(1), &[&n(120)]);
    for i in 0..120i64 {
        let t = if i == 0 { -1_000 } else { i64::MAX - 200 + i };
        wide.extend(t.to_le_bytes());
        wide.extend(0u64.to_le_bytes());
    }
    assert_eq!(fails(&wide), SnapshotError::GapTooWide);
    assert_eq!(
        fails(&with(one_series(2), &[&n(100_001)])),
        SnapshotError::ChunkCount(100_001)
    );
    let start = with(one_series(2), &[&n(1), &5i64.to_le_bytes()]);
    assert_eq!(
        fails(&with(start.clone(), &[&5i64.to_le_bytes(), &n(0)])),
        SnapshotError::ChunkSampleCount(0)
    );
    assert_eq!(
        fails(&with(start.clone(), &[&4i64.to_le_bytes(), &n(1)])),
        SnapshotError::ChunkEndsFirst
    );
    assert_eq!(
        fails(&with(start.clone(), &[&5i64.to_le_bytes(), &n(1), &n(16_777_217)])),
        SnapshotError::ChunkLength(16_777_217)
    );
    assert_eq!(
        fails(&with(start, &[&5i64.to_le_bytes(), &n(1), &n(1), &[9]])),
        SnapshotError::Chunk(ChunkError::UnknownStream(9))
    );
    let chunk = chunk::encode(&[sample(10, 1.0), sample(20, 2.0)]);
    let file = |parts: &[Vec<u8>], head: &[i64]| {
        let mut file = with(one_series(2), &[&n(parts.len() as u32)]);
        for part in parts {
            file.extend_from_slice(part);
        }
        file.extend(n(head.len() as u32));
        for t in head {
            file.extend(t.to_le_bytes());
            file.extend(1.0f64.to_le_bytes());
        }
        file
    };
    assert_eq!(
        fails(&file(&[chunk_bytes(10, 25, &chunk)], &[])),
        SnapshotError::HeaderDisagrees
    );
    // Forty, thirty, fifty: a delta of ten down, as a zigzag.
    let back = Chunk::from_parts(40, 50, 3, vec![0, 19, 40, 1, 0, 0, 0, 0, 0, 0, 0, 0].into());
    let mut raw = back.raw_bytes().to_vec();
    raw.extend([0u8; 16]);
    let back = Chunk::from_parts(40, 50, 3, raw.into());
    assert_eq!(
        fails(&file(&[chunk_bytes(40, 50, &back)], &[])),
        SnapshotError::NotAscending
    );
    assert_eq!(
        fails(&file(&[chunk_bytes(10, 20, &chunk), chunk_bytes(15, 25, &chunk)], &[])),
        SnapshotError::ChunksOverlap
    );
    assert_eq!(
        fails(&file(&[chunk_bytes(10, 20, &chunk)], &[20])),
        SnapshotError::HeadOverlaps
    );
    let store = snapshot::load(&file(&[chunk_bytes(10, 20, &chunk)], &[21]), 86_400, 0)
        .expect("loads");
    assert_eq!(
        store.series_iter()[0].samples(),
        [sample(10, 1.0), sample(20, 2.0), sample(21, 1.0)]
    );
}

#[test]
fn errors_say_what_is_wrong() {
    for (error, want) in [
        (SnapshotError::NotASnapshot, "not a kubeloupe snapshot"),
        (
            SnapshotError::UnsupportedVersion(3),
            "snapshot version 3 is not supported",
        ),
        (
            SnapshotError::ChunkSampleCount(4_294_967_295),
            "implausible chunk sample count 4294967295",
        ),
        (
            SnapshotError::Chunk(ChunkError::UnknownStream(9)),
            "a chunk failed to decode: unknown chunk stream mode 9",
        ),
        (
            SnapshotError::HeadOverlaps,
            "a snapshot head overlaps its chunks",
        ),
    ] {
        assert_eq!(error.message(), want);
    }
}

#[test]
fn labels_survive_a_snapshot_as_text() {
    let mut store = Store::new(86_400);
    store.append(labels("m", &[("pod", "naïve-\u{1f600}")]), 0, 0);
    let restored = snapshot::load(&snapshot::save(&store), 86_400, 0).expect("loads");
    assert_eq!(
        restored.series_iter()[0].labels().get("pod").map(String::as_str),
        Some("naïve-\u{1f600}")
    );
}

#[test]
fn raw_samples_are_packed_and_none_is_lost() {
    let mut store = Store::new(86_400);
    let samples: Vec<Sample> = (0..250).map(|i| sample(i * 30, i as f64)).collect();
    store.insert_series(named("m"), samples.clone());
    store.insert_series(named("empty"), Vec::new());
    assert_eq!(store.series_count(), 1);
    let series = store.series_iter();
    assert_eq!(series[0].sealed_chunks().len(), 2);
    assert_eq!(series[0].head().len(), 10);
    assert_eq!(series[0].samples(), samples);
    let chunk = chunk::encode(&samples[..100]);
    let mut other = Store::new(86_400);
    other.insert_chunked(named("m"), vec![chunk], samples[100..].to_vec());
    assert_eq!(other.series_iter()[0].samples(), samples);
}

/// What a loader makes of a file that it is fed so many bytes at a time.
fn fed(file: &[u8], size: usize) -> Result<Store, SnapshotError> {
    let mut loader = Loader::new(86_400, 0);
    for piece in file.chunks(size) {
        loader = loader.feed(piece)?;
    }
    loader.finish()
}

#[test]
fn a_snapshot_in_pieces_is_the_snapshot() {
    let mut file = snapshot::save(&filled());
    for size in [1, 7, 100, 1_000_000] {
        let store = fed(&file, size).expect("loads");
        assert_eq!(snapshot::save(&store), file);
    }
    // Wherever it ends, the error is that of the whole.
    for end in [0, 3, 4, 5, 9, 10, 11, 13, 40, file.len() - 1] {
        let want = snapshot::load(&file[..end], 86_400, 0).err();
        assert!(want.is_some());
        assert_eq!(fed(&file[..end], 3).err(), want, "{end} bytes");
    }
    // What stands behind the last series is not looked at.
    let whole = file.clone();
    file.extend([0xff; 100]);
    assert_eq!(snapshot::save(&fed(&file, 11).expect("loads")), whole);
}

#[test]
fn a_fault_ends_the_feeding_as_soon_as_it_shows() {
    let loader = Loader::new(86_400, 0);
    let loader = loader.feed(b"LMD").expect("may go on");
    assert_eq!(loader.feed(b"2").err(), Some(SnapshotError::NotASnapshot));
    let loader = Loader::new(86_400, 0);
    let loader = loader.feed(b"LMD1\x02\0\x01\0\0\0").expect("may go on");
    let loader = loader.feed(b"\x01\0\x02\0a").expect("may go on");
    assert_eq!(loader.feed(b"\xff").err(), Some(SnapshotError::LabelNotText));
}

#[test]
fn the_longest_label_reads_back_and_a_longer_one_is_refused() {
    for (n, want) in [(4096, None), (4097, Some(4097)), (70_000, Some(65_535))] {
        let mut store = Store::new(86_400);
        store.append(labels("m", &[("long", &"x".repeat(n))]), 0, 0);
        let r = snapshot::load(&snapshot::save(&store), 86_400, 0);
        match want {
            None => assert_eq!(
                r.expect("loads").series_iter()[0].labels.get("long").map(|v| v.len()),
                Some(n)
            ),
            Some(n) => assert_eq!(r.err(), Some(SnapshotError::StringLength(n))),
        }
    }
}

#[test]
fn a_raw_snapshot_gives_its_series_and_no_other() {
    let mut file = with(one_series(1), &[&3u32.to_le_bytes()]);
    for (t, v) in [(10i64, 1.5f64), (20, f64::NAN), (30, -0.0)] {
        file.extend(t.to_le_bytes());
        file.extend(v.to_bits().to_le_bytes());
    }
    let store = snapshot::load(&file, 20, 30).expect("loads");
    assert_eq!(store.series_count(), 1);
    assert_eq!(
        store.series_iter()[0].samples(),
        [sample(10, 1.5), sample(20, f64::NAN), sample(30, -0.0)]
    );
    assert_eq!(snapshot::save(&store)[..6], [b'L', b'M', b'D', b'1', 2, 0]);
}

#[test]
fn runs_are_held_to_the_count_they_were_written_for() {
    let samples: Vec<Sample> = (0..10).map(|i| sample(i * 30, 1.0)).collect();
    let chunk = chunk::encode(&samples);
    assert_eq!(chunk.raw_bytes()[0], 1, "one run of gaps");
    let under = |count: u32| {
        decoded(&Chunk::from_parts(0, 270, count, chunk.raw_bytes().into())).expect_err("an error")
    };
    assert_eq!(under(9), ChunkError::RunsTooLong);
    assert_eq!(under(11), ChunkError::RunsTooShort);
}

#[test]
fn gaps_take_no_more_bytes_than_they_have_to() {
    let bytes = |gap: i64| {
        let chunk = chunk::encode(&[sample(0, 0.5), sample(gap, 0.5)]);
        chunk.raw_bytes().len()
    };
    let one = bytes(1);
    // Seven bits of a zigzag, twice seven, and all that there are.
    assert_eq!(bytes(63), one);
    assert_eq!(bytes(64), one + 1);
    assert_eq!(bytes(8_191), one + 1);
    assert_eq!(bytes(8_192), one + 2);
    assert_eq!(bytes(i64::MAX), one + 9);
    let chunk = chunk::encode(&[sample(0, 0.5), sample(8_192, 0.5)]);
    for end in 0..4 {
        let cut = Chunk::from_parts(0, 8_192, 2, chunk.raw_bytes()[..end].into());
        assert_eq!(decoded(&cut), Err(ChunkError::EndedEarly));
    }
}

#[test]
fn a_range_has_one_list_for_each_label_set() {
    let mut store = Store::new(86_400);
    for t in [0i64, 60, 120] {
        for pod in ["a", "b"] {
            let v = if pod == "b" && t == 60 { f64::NAN } else { t as f64 };
            store.append(labels("m", &[("pod", pod)]), t, v.to_bits());
        }
    }
    let expr = parser::parse("m").expect("parses");
    let out = eval::query_range(&store, &expr, 0, 150, 60);
    assert_eq!(out.len(), 2);
    let at = |t: i64| (t, (t as f64).to_bits());
    assert_eq!(out[0].labels.get("pod").map(|v| v.as_str()), Some("a"));
    assert_eq!(out[0].values, [at(0), at(60), at(120)]);
    assert_eq!(out[1].labels.get("pod").map(|v| v.as_str()), Some("b"));
    assert_eq!(out[1].values, [at(0), at(120)]);
    // Two series that differ in their names alone share a list.
    store.append(labels("n", &[("pod", "a")]), 120, 7.0f64.to_bits());
    let both = parser::parse("{pod=\"a\"}").expect("parses");
    let out = eval::query_range(&store, &both, 120, 120, 1);
    assert_eq!(out.len(), 1);
    assert_eq!(out[0].values, [at(120), (120, 7.0f64.to_bits())]);
    assert!(eval::query_range(&store, &expr, 1, 0, 1).is_empty());
    let number = parser::parse("1 + 1").expect("parses");
    assert!(eval::query_range(&store, &number, 0, 120, 60).is_empty());
}

#[test]
fn the_footprint_is_what_is_allocated() {
    let mut store = Store::new(86_400);
    for i in 0..119 {
        store.append(named("m"), i, 0.5f64.to_bits());
    }
    let slot = std::mem::size_of::<Chunk>();
    let sample = std::mem::size_of::<Sample>();
    assert_eq!((slot, sample), (40, 16));
    // The head grew by doubling, and has room to spare.
    let series = store.series_iter()[0];
    assert_eq!(series.heap_size(), 128 * sample);
    assert_eq!(store.heap_size(), series.heap_size());
    // Sealing grows the chunks by one, and trims the head to what it reached.
    store.append(named("m"), 119, 0.5f64.to_bits());
    let series = store.series_iter()[0];
    let packed = series.sealed_chunks()[0].heap_size();
    assert_eq!(series.head().len(), 0);
    assert_eq!(series.heap_size(), slot + packed + 120 * sample);
    assert_eq!(series.heap_size_with(3, 7), 3 * slot + packed + 7 * sample);
    assert_eq!(series.heap_size_with(usize::MAX, 0), usize::MAX);
    // Pruning gives nothing back.
    store.append(named("m"), 120, 0.5f64.to_bits());
    store.append(named("m"), 200, 0.5f64.to_bits());
    store.prune(86_400 + 150);
    let series = store.series_iter()[0];
    assert_eq!((series.sealed_chunks().len(), series.head().len()), (0, 1));
    assert_eq!(series.heap_size(), slot + 120 * sample);
}

#[test]
fn numbers_fold_and_unfold() {
    for (n, u) in [
        (0, 0),
        (-1, 1),
        (1, 2),
        (-2, 3),
        (i64::MAX, u64::MAX - 1),
        (i64::MIN, u64::MAX),
    ] {
        assert_eq!(chunk::zigzag(n), u);
        assert_eq!(chunk::unzigzag(u), n);
    }
}

#[test]
fn varints_read_back_and_none_that_is_cut_does() {
    for (n, len) in [
        (0u64, 1),
        (127, 1),
        (128, 2),
        (16_383, 2),
        (16_384, 3),
        (u64::MAX / 2, 9),
        (u64::MAX / 2 + 1, 10),
        (u64::MAX, 10),
    ] {
        let mut out = Vec::new();
        chunk::put_uvarint(&mut out, n);
        assert_eq!(out.len(), len);
        for end in 0..len {
            assert_eq!(chunk::get_uvarint(&mut &out[..end]), Err(ChunkError::EndedEarly));
        }
        out.extend([7, 8]);
        let mut input = out.as_slice();
        assert_eq!(chunk::get_uvarint(&mut input), Ok(n));
        assert_eq!(input, [7, 8]);
    }
}

#[test]
fn streams_read_back_under_their_own_length() {
    for (values, mode) in [
        (vec![i64::MIN, i64::MAX, 0, -1], 0),
        (vec![30; 50], 1),
        (vec![], 0),
    ] {
        let mut out = Vec::new();
        chunk::encode_stream(&mut out, &values);
        assert_eq!(out[0], mode);
        out.extend([1, 2, 3]);
        let mut input = out.as_slice();
        assert_eq!(chunk::decode_stream(&mut input, values.len()), Ok(values.clone()));
        assert_eq!(input, [1, 2, 3]);
        if mode == 1 {
            let read = |n: usize| chunk::decode_stream(&mut out.as_slice(), n);
            assert_eq!(read(49), Err(ChunkError::RunsTooLong));
            assert_eq!(read(51), Err(ChunkError::RunsTooShort));
        }
    }
}

#[test]
fn texts_read_back_with_what_follows() {
    let mut out = Vec::new();
    snapshot::write_string(&mut out, "grüße");
    assert_eq!(out[..2], [7, 0]);
    out.extend([9, 9]);
    let mut input = out.as_slice();
    assert_eq!(snapshot::read_string(&mut input), Ok("grüße".to_string()));
    assert_eq!(input, [9, 9]);
    let mut out = Vec::new();
    snapshot::write_string(&mut out, &"x".repeat(4097));
    assert_eq!(
        snapshot::read_string(&mut out.as_slice()),
        Err(SnapshotError::StringLength(4097))
    );
}
