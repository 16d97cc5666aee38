//! Live latency matrix between all PoP nodes.
//!
//! Updated by the prober; read for path selection and status reports.
//! RTTs are smoothed with an EWMA of weight 1/8 on the new sample (the
//! weight of TCP's RTT estimator), computed on whole microseconds.
//! Durations are held as nanoseconds.
use vstd::prelude::*;

use crate::clock;

verus! {

/// A concurrent map of the `dashmap` crate.
#[verifier::external_type_specification]
#[verifier::external_body]
#[verifier::reject_recursive_types(K)]
#[verifier::reject_recursive_types(V)]
#[verifier::reject_recursive_types(S)]
pub struct ExDashMap<K, V, S>(dashmap::DashMap<K, V, S>);

/// The smoothed measurements of one path.
#[derive(Clone, Copy, Debug)]
pub struct LatencyEntry {
    /// Smoothed RTT, in nanoseconds.
    pub smoothed_rtt: u128,
    /// Smoothed deviation of the samples from the smoothed RTT, in nanoseconds.
    pub jitter: u128,
    /// When the entry last took a sample.
    pub last_updated: std::time::Instant,
    /// Number of samples taken.
    pub samples: u64,
}

/// The map from paths `(from, to)` to their entries.
pub type LatencyMap = dashmap::DashMap<(String, String), LatencyEntry>;

/// The measurements of an entry: `(smoothed_rtt, jitter, samples)`.
pub open spec fn entry_view(e: LatencyEntry) -> (u128, u128, u64) {
    (e.smoothed_rtt, e.jitter, e.samples)
}

/// A path's key: `(from, to)` node ids.
pub open spec fn path_key(from: Seq<char>, to: Seq<char>) -> (Seq<char>, Seq<char>) {
    (from, to)
}

/// The measurements the map holds, by path.
pub uninterp spec fn latency_contents(m: LatencyMap) -> Map<
    (Seq<char>, Seq<char>),
    (u128, u128, u64),
>;

/// The matrix with no paths.
pub open spec fn no_paths() -> Map<(Seq<char>, Seq<char>), (u128, u128, u64)> {
    Map::empty()
}

/// Calls `dashmap::DashMap::new`: an empty map.
#[verifier::external_body]
fn latency_map_new() -> (fresh: LatencyMap)
    ensures
        latency_contents(fresh) == no_paths(),
{
    dashmap::DashMap::new()
}

/// Calls `dashmap::DashMap::get` on the key `(from, to)` and copies the
/// entry out: the entry stored under that key, if any.
#[verifier::external_body]
fn latency_map_get(m: &LatencyMap, from: &str, to: &str) -> (r:
    Option<LatencyEntry>)
    ensures
        match r {
            Some(e) => latency_contents(*m).contains_key(path_key(from@, to@)) && latency_contents(
                *m,
            )[path_key(from@, to@)] == entry_view(e),
            None => !latency_contents(*m).contains_key(path_key(from@, to@)),
        },
{
    m.get(&(from.to_string(), to.to_string())).map(|e| *e.value())
}

/// Calls `dashmap::DashMap::insert` with the key `(from, to)`: the entry
/// replaces whatever was stored under that key.
#[verifier::external_body]
fn latency_map_insert(
    m: &mut LatencyMap,
    from: &str,
    to: &str,
    e: LatencyEntry,
)
    ensures
        latency_contents(*final(m)) == latency_contents(*old(m)).insert(path_key(from@, to@), entry_view(e)),
{
    m.insert((from.to_string(), to.to_string()), e);
}

/// Calls `dashmap::DashMap::len`: the number of entries.
#[verifier::external_body]
fn latency_map_len(m: &LatencyMap) -> (n: usize)
    ensures
        n == latency_contents(*m).len(),
{
    m.len()
}

/// Walks the map with `dashmap::DashMap::iter` and copies out every entry
/// with its key. Every key comes exactly once; the order is the map's own
/// and is left open.
#[verifier::external_body]
fn latency_map_entries(m: &LatencyMap) -> (r: Vec<
    (String, String, LatencyEntry),
>)
    ensures
        forall|i: int|
            0 <= i < r@.len() ==> latency_contents(*m).contains_key(path_key(r@[i].0@, r@[i].1@))
                && latency_contents(*m)[path_key(r@[i].0@, r@[i].1@)] == entry_view(#[trigger] r@[i].2),
        forall|i: int, j: int|
            0 <= i < r@.len() && 0 <= j < r@.len() && i != j ==> path_key(r@[i].0@, r@[i].1@) != path_key(
                r@[j].0@,
                r@[j].1@,
            ),
        forall|k: (Seq<char>, Seq<char>)|
            latency_contents(*m).contains_key(k) ==> exists|i: int|
                0 <= i < r@.len() && k == path_key(#[trigger] r@[i].0@, r@[i].1@),
{
    let mut out = Vec::new();
    for e in m.iter() {
        out.push((e.key().0.clone(), e.key().1.clone(), *e.value()));
    }
    out
}

/// The EWMA step on whole microseconds: 7/8 of the old value plus 1/8 of
/// the sample, rounded down.
pub open spec fn ewma_micros(old_us: int, sample_us: int) -> int {
    (7 * old_us + sample_us) / 8
}

/// A microsecond count held as a `u64` (larger values are capped).
pub open spec fn cap_u64(v: int) -> int {
    if v > u64::MAX {
        u64::MAX as int
    } else {
        v
    }
}

/// The measurements of a path after a sample of `rtt` nanoseconds: the
/// sample itself on the first one; otherwise the EWMA of the RTT, and of
/// the sample's distance from the old RTT, on whole microseconds.
pub open spec fn updated_measurements(old: Option<(u128, u128, u64)>, rtt: u128) -> (u128, u128, u64) {
    match old {
        None => (rtt, 0, 1),
        Some((smoothed, jitter, samples)) => {
            let old_us = smoothed as int / 1000;
            let rtt_us = rtt as int / 1000;
            let diff = if rtt_us >= old_us {
                rtt_us - old_us
            } else {
                old_us - rtt_us
            };
            (
                (cap_u64(ewma_micros(old_us, rtt_us)) * 1000) as u128,
                (cap_u64(ewma_micros(jitter as int / 1000, diff)) * 1000) as u128,
                if samples == u64::MAX {
                    samples
                } else {
                    (samples + 1) as u64
                },
            )
        },
    }
}

/// The matrix after a sample of `rtt` nanoseconds on the path `from -> to`.
pub open spec fn matrix_after_sample(
    m: Map<(Seq<char>, Seq<char>), (u128, u128, u64)>,
    from: Seq<char>,
    to: Seq<char>,
    rtt: u128,
) -> Map<(Seq<char>, Seq<char>), (u128, u128, u64)> {
    let k = path_key(from, to);
    m.insert(k, updated_measurements(if m.contains_key(k) { Some(m[k]) } else { None }, rtt))
}

/// A first sample of a path is taken as its RTT; after that, each sample
/// of `rtt` ns moves the smoothed RTT one eighth of the way from its old
/// value toward the sample, on whole microseconds rounded down, whether the
/// sample lies above or below it: with `s` and `r` the old RTT and the
/// sample in whole microseconds, the new RTT `n` (in whole microseconds)
/// satisfies `8n <= 7s + r < 8n + 8`, so it lies between `s` and `r` and
/// at most `|r - s| / 8` from `s`. Values past `u64::MAX` µs are capped.
/// The jitter moves the same way toward the sample's distance from `s`,
/// and the sample count grows by one (saturating). Other paths are untouched.
pub proof fn lemma_update_smooths_rtt(
    m: Map<(Seq<char>, Seq<char>), (u128, u128, u64)>,
    from: Seq<char>,
    to: Seq<char>,
    rtt: u128,
)
    ensures
        ({
            let k = path_key(from, to);
            let after = matrix_after_sample(m, from, to, rtt);
            &&& after.contains_key(k)
            &&& after.remove(k) == m.remove(k)
            &&& !m.contains_key(k) ==> after[k] == (rtt, 0u128, 1u64)
            &&& m.contains_key(k) ==> {
                let s = m[k].0 as int / 1000;
                let j = m[k].1 as int / 1000;
                let r = rtt as int / 1000;
                let d = if r >= s {
                    r - s
                } else {
                    s - r
                };
                let n = after[k].0 as int;
                let nj = after[k].1 as int;
                &&& n % 1000 == 0
                &&& 7 * s + r < 8 * (u64::MAX + 1) ==> 8 * (n / 1000) <= 7 * s + r < 8 * (n / 1000) + 8
                &&& 7 * s + r < 8 * (u64::MAX + 1) ==> (s <= n / 1000 <= r || r <= n / 1000 <= s)
                &&& 7 * s + r < 8 * (u64::MAX + 1) ==> 8 * (n / 1000 - s) <= r - s && r - s < 8 * (n / 1000 - s) + 8
                &&& 7 * s + r >= 8 * (u64::MAX + 1) ==> n == u64::MAX * 1000
                &&& nj % 1000 == 0
                &&& 7 * j + d < 8 * (u64::MAX + 1) ==> 8 * (nj / 1000) <= 7 * j + d < 8 * (nj / 1000) + 8
                &&& after[k].2 == if m[k].2 == u64::MAX {
                    u64::MAX
                } else {
                    (m[k].2 + 1) as u64
                }
            }
        }),
{
    let k = path_key(from, to);
    let after = matrix_after_sample(m, from, to, rtt);
    assert(after.remove(k) =~= m.remove(k));
    if m.contains_key(k) {
        let s = m[k].0 as int / 1000;
        let r = rtt as int / 1000;
        let q = (7 * s + r) / 8;
        assert(0 <= q);
        if 7 * s + r < 8 * (u64::MAX + 1) {
            assert(q <= u64::MAX);
            assert(after[k].0 as int == q * 1000);
            assert((q * 1000) / 1000 == q);
            assert((q * 1000) % 1000 == 0);
        } else {
            assert(q > u64::MAX);
        }
        let j = m[k].1 as int / 1000;
        let d = if r >= s {
            r - s
        } else {
            s - r
        };
        let qj = (7 * j + d) / 8;
        if qj <= u64::MAX {
            assert(after[k].1 as int == qj * 1000);
            assert((qj * 1000) / 1000 == qj);
        } else {
            assert(after[k].1 as int == u64::MAX * 1000);
        }
        assert((u64::MAX as int * 1000) % 1000 == 0);
        assert((qj * 1000) % 1000 == 0);
    }
}

/// One EWMA step on microsecond counts.
fn ewma_step(old_us: u128, sample_us: u128) -> (r: u128)
    requires
        old_us <= u128::MAX / 1000,
        sample_us <= u128::MAX / 1000,
    ensures
        r == cap_u64(ewma_micros(old_us as int, sample_us as int)) * 1000,
{
    let v = (7 * old_us + sample_us) / 8;
    let capped = if v > u64::MAX as u128 {
        u64::MAX as u128
    } else {
        v
    };
    capped * 1000
}

/// Live latency matrix: smoothed RTTs of the paths between PoP nodes.
pub struct LatencyMatrix {
    entries: LatencyMap,
}

impl View for LatencyMatrix {
    type V = Map<(Seq<char>, Seq<char>), (u128, u128, u64)>;

    /// The measurements by path `(from, to)`.
    closed spec fn view(&self) -> Self::V {
        latency_contents(self.entries)
    }
}

impl LatencyMatrix {
    pub fn new() -> (m: Self)
        ensures
            m@ == no_paths(),
    {
        Self { entries: latency_map_new() }
    }

    /// Takes an RTT sample of `rtt` nanoseconds on the path `from -> to`.
    pub fn update(&mut self, from: &str, to: &str, rtt: u128)
        ensures
            final(self)@ == matrix_after_sample(old(self)@, from@, to@, rtt),
            final(self)@.contains_key(path_key(from@, to@)),
            final(self)@.remove(path_key(from@, to@)) == old(self)@.remove(path_key(from@, to@)),
            !old(self)@.contains_key(path_key(from@, to@)) ==> final(self)@[path_key(from@, to@)] == (rtt, 0u128, 1u64),
            old(self)@.contains_key(path_key(from@, to@)) && (7 * (old(self)@[path_key(from@, to@)].0 / 1000) + rtt
                / 1000) / 8 <= u64::MAX ==> final(self)@[path_key(from@, to@)].0 == ((7 * (old(self)@[path_key(
                from@,
                to@,
            )].0 / 1000) + rtt / 1000) / 8) * 1000,
    {
        let entry = match latency_map_get(&self.entries, from, to) {
            Some(e) => {
                let old_us = e.smoothed_rtt / 1000;
                let rtt_us = rtt / 1000;
                let diff = if rtt_us >= old_us {
                    rtt_us - old_us
                } else {
                    old_us - rtt_us
                };
                LatencyEntry {
                    smoothed_rtt: ewma_step(old_us, rtt_us),
                    jitter: ewma_step(e.jitter / 1000, diff),
                    last_updated: clock::now(),
                    samples: e.samples.saturating_add(1),
                }
            },
            None => LatencyEntry { smoothed_rtt: rtt, jitter: 0, last_updated: clock::now(), samples: 1 },
        };
        latency_map_insert(&mut self.entries, from, to, entry);
    }

    /// The smoothed RTT of the path `from -> to`, in nanoseconds.
    pub fn get_rtt(&self, from: &str, to: &str) -> (r: Option<u128>)
        ensures
            match r {
                Some(rtt) => self@.contains_key(path_key(from@, to@)) && rtt == self@[path_key(
                    from@,
                    to@,
                )].0,
                None => !self@.contains_key(path_key(from@, to@)),
            },
    {
        match latency_map_get(&self.entries, from, to) {
            Some(e) => Some(e.smoothed_rtt),
            None => None,
        }
    }

    /// The full entry of the path `from -> to`.
    pub fn get_entry(&self, from: &str, to: &str) -> (r: Option<LatencyEntry>)
        ensures
            match r {
                Some(e) => self@.contains_key(path_key(from@, to@)) && entry_view(e) == self@[path_key(
                    from@,
                    to@,
                )],
                None => !self@.contains_key(path_key(from@, to@)),
            },
    {
        latency_map_get(&self.entries, from, to)
    }

    /// All edges as `(from, to, smoothed RTT)`, each path once, in no
    /// particular order.
    pub fn all_edges(&self) -> (r: Vec<(String, String, u128)>)
        ensures
            forall|i: int|
                0 <= i < r@.len() ==> self@.contains_key(path_key(r@[i].0@, r@[i].1@))
                    && (#[trigger] r@[i]).2 == self@[path_key(r@[i].0@, r@[i].1@)].0,
            forall|i: int, j: int|
                0 <= i < r@.len() && 0 <= j < r@.len() && i != j ==> path_key(r@[i].0@, r@[i].1@)
                    != path_key(r@[j].0@, r@[j].1@),
            forall|k: (Seq<char>, Seq<char>)|
                self@.contains_key(k) ==> exists|i: int|
                    0 <= i < r@.len() && k == path_key(#[trigger] r@[i].0@, r@[i].1@),
    {
        let entries = latency_map_entries(&self.entries);
        let mut edges: Vec<(String, String, u128)> = Vec::new();
        let mut i: usize = 0;
        while i < entries.len()
            invariant
                0 <= i <= entries@.len(),
                edges@.len() == i,
                forall|j: int|
                    0 <= j < i ==> (#[trigger] edges@[j]).0@ == entries@[j].0@ && edges@[j].1@
                        == entries@[j].1@ && edges@[j].2 == entries@[j].2.smoothed_rtt,
            decreases entries@.len() - i,
        {
            let (from, to, e) = &entries[i];
            edges.push((from.clone(), to.clone(), e.smoothed_rtt));
            i = i + 1;
        }
        proof {
            assert forall|k: (Seq<char>, Seq<char>)| self@.contains_key(k) implies exists|i: int|
                0 <= i < edges@.len() && k == path_key(#[trigger] edges@[i].0@, edges@[i].1@) by {
                let j = choose|j: int| 0 <= j < entries@.len() && k == path_key(#[trigger] entries@[j].0@, entries@[j].1@);
                assert(edges@[j].0@ == entries@[j].0@);
            }
            assert forall|a: int| 0 <= a < edges@.len() implies self@.contains_key(path_key(edges@[a].0@, edges@[a].1@))
                && (#[trigger] edges@[a]).2 == self@[path_key(edges@[a].0@, edges@[a].1@)].0 by {
                assert(entry_view(entries@[a].2) == self@[path_key(entries@[a].0@, entries@[a].1@)]);
            }
        }
        edges
    }

    /// All node ids that occur in a path, each once, in no particular order.
    pub fn nodes(&self) -> (r: Vec<String>)
        ensures
            distinct_names(r@),
            forall|n: Seq<char>| #[trigger] holds_name(r@, n) <==> is_node(self@, n),
    {
        let entries = latency_map_entries(&self.entries);
        let mut set: Vec<String> = Vec::new();
        let mut i: usize = 0;
        while i < entries.len()
            invariant
                0 <= i <= entries@.len(),
                distinct_names(set@),
                forall|n: Seq<char>| #[trigger] holds_name(set@, n) <==> named_in(entries@, i as int, n),
            decreases entries@.len() - i,
        {
            let (from, to, _e) = &entries[i];
            insert_unique(&mut set, from);
            insert_unique(&mut set, to);
            proof {
                assert forall|n: Seq<char>| #[trigger] holds_name(set@, n) <==> named_in(entries@, i + 1, n) by {
                    if named_in(entries@, i + 1, n) {
                        let j = choose|j: int| 0 <= j < i + 1 && (n == (#[trigger] entries@[j]).0@ || n == entries@[j].1@);
                        if j < i {
                            assert(named_in(entries@, i as int, n));
                        }
                    }
                    if named_in(entries@, i as int, n) {
                        let j = choose|j: int| 0 <= j < i && (n == (#[trigger] entries@[j]).0@ || n == entries@[j].1@);
                        assert(0 <= j < i + 1);
                    }
                    if n == from@ || n == to@ {
                        assert(0 <= i < i + 1 && (n == entries@[i as int].0@ || n == entries@[i as int].1@));
                    }
                }
            }
            i = i + 1;
        }
        proof {
            assert forall|n: Seq<char>| #[trigger] holds_name(set@, n) <==> is_node(self@, n) by {
                if named_in(entries@, i as int, n) {
                    let j = choose|j: int| 0 <= j < i && (n == (#[trigger] entries@[j]).0@ || n == entries@[j].1@);
                    let k = path_key(entries@[j].0@, entries@[j].1@);
                    let _e = entries@[j].2;
                    assert(self@.contains_key(k) && (k.0 == n || k.1 == n));
                }
                if is_node(self@, n) {
                    let k = choose|k: (Seq<char>, Seq<char>)| #[trigger] self@.contains_key(k) && (k.0 == n || k.1 == n);
                    let j = choose|j: int| 0 <= j < entries@.len() && k == path_key(#[trigger] entries@[j].0@, entries@[j].1@);
                    assert(0 <= j < i && (n == entries@[j].0@ || n == entries@[j].1@));
                }
            }
        }
        set
    }

    /// Number of tracked paths.
    pub fn path_count(&self) -> (n: usize)
        ensures
            n == self@.len(),
    {
        latency_map_len(&self.entries)
    }
}

/// The names held by `names`, as strings, are pairwise distinct.
pub open spec fn distinct_names(names: Seq<String>) -> bool {
    forall|a: int, b: int| 0 <= a < names.len() && 0 <= b < names.len() && a != b ==> names[a]@ != names[b]@
}

/// `names` holds the name `n`.
pub open spec fn holds_name(names: Seq<String>, n: Seq<char>) -> bool {
    exists|a: int| 0 <= a < names.len() && n == (#[trigger] names[a])@
}

/// `n` is an endpoint of some path of the matrix `m`.
pub open spec fn is_node(m: Map<(Seq<char>, Seq<char>), (u128, u128, u64)>, n: Seq<char>) -> bool {
    exists|k: (Seq<char>, Seq<char>)| #[trigger] m.contains_key(k) && (k.0 == n || k.1 == n)
}

/// `n` is an endpoint of one of the first `i` entries.
pub open spec fn named_in(entries: Seq<(String, String, LatencyEntry)>, i: int, n: Seq<char>) -> bool {
    exists|j: int| 0 <= j < i && (n == (#[trigger] entries[j]).0@ || n == entries[j].1@)
}

/// Appends a copy of `name` to `set` unless it already holds that name.
fn insert_unique(set: &mut Vec<String>, name: &String)
    requires
        distinct_names(old(set)@),
    ensures
        distinct_names(final(set)@),
        forall|n: Seq<char>| #[trigger] holds_name(final(set)@, n) <==> (holds_name(old(set)@, n) || n == name@),
{
    let mut i: usize = 0;
    while i < set.len()
        invariant
            0 <= i <= set@.len(),
            set@ == old(set)@,
            distinct_names(set@),
            forall|a: int| 0 <= a < i ==> (#[trigger] set@[a])@ != name@,
        decreases set@.len() - i,
    {
        if set[i] == *name {
            assert(holds_name(set@, name@)) by {
                assert(name@ == set@[i as int]@);
            }
            return;
        }
        i = i + 1;
    }
    let ghost before = set@;
    set.push(name.clone());
    proof {
        assert forall|n: Seq<char>| #[trigger] holds_name(set@, n) <==> (holds_name(before, n) || n == name@) by {
            if holds_name(set@, n) {
                let a = choose|a: int| 0 <= a < set@.len() && n == (#[trigger] set@[a])@;
                if a < before.len() {
                    assert(set@[a] == before[a]);
                }
            }
            if holds_name(before, n) {
                let a = choose|a: int| 0 <= a < before.len() && n == (#[trigger] before[a])@;
                assert(set@[a] == before[a]);
            }
            if n == name@ {
                assert(set@[before.len() as int]@ == name@);
            }
        }
    }
}

} // verus!
