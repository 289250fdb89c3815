# kubeloupe

Metrics for Lens Desktop in one process: no Prometheus, no node-exporter, no
kube-state-metrics.

Lens draws its charts from a Prometheus-compatible query API. kubeloupe reads
what the Kubernetes API server and the kubelets already know, keeps a day of
samples in memory, compressed, snapshots them so that a restart costs nothing,
and answers the subset of PromQL that Lens generates.

## Layout

`src/` is the library, written in Verus. Every function states what it does, and
Verus proves that it does.

| module | what it holds |
| --- | --- |
| `double`, `big`, `decimal` | IEEE 754 doubles as bit patterns; reading and writing numbers |
| `bytes`, `text`, `textmap`, `keyed`, `room` | bytes, text, small ordered maps, values under keys, allocated room |
| `chunk` | samples as varint streams, lossless bit for bit |
| `series`, `store` | a series as chunks and a head; the store and its retention |
| `listing`, `bounds` | why the list of names never changes an answer; how much a store can hold |
| `snapshot`, `loader` | the file format, and what comes back from it, whole or piece by piece |
| `promql` | the tokeniser, the parser and the evaluator |
| `kube`, `collect` | what is read from the cluster, and the series it becomes |
| `api`, `discovery`, `config` | what a request asks for, and how the daemon is set up |

Public proof functions whose names start with `law_` state what holds of the
library as a whole: a chunk gives back what it was made of, a restored store
answers as the store would have, a reset counter never reads as a negative rate.

The items that Verus takes on trust are the wrappers around `regex-lite` and
`form_urlencoded` and a few functions of the standard library; each says in its
doc comment what is believed of it.

`app/` is the daemon around the library: HTTP, files, signals and the clock.
`tests/` runs the library, among others on the queries that Lens sends.

## Numbers

A sample's value is the 64 bits of a double. Arithmetic on it is done on those
bits, as the nearest double to the exact result, so that sums and rates come out
as the machine's own would.

## Configuration

| variable | default |
| --- | --- |
| `SCRAPE_INTERVAL_SECONDS` | `30` |
| `RETENTION_HOURS` | `24` |
| `SNAPSHOT_PATH` | unset: no persistence |
| `SNAPSHOT_INTERVAL_SECONDS` | `300` |
| `LISTEN_ADDR` | `0.0.0.0:9090` |
