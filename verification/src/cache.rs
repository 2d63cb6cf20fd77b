//! A bounded set-associative cache with deterministic least-recently-used replacement.

use vstd::prelude::*;

verus! {

/// Construction parameters for a cache with fixed-size lines and associativity.
#[derive(Clone, Copy, Debug, PartialEq, Eq, Structural)]
pub struct CacheConfig {
    pub sets: usize,
    pub ways: usize,
    pub line_bytes: u32,
}

/// Cache outcome counters.
#[derive(Clone, Copy, Debug, PartialEq, Eq, Structural)]
pub struct CacheStats {
    pub accesses: u64,
    pub hits: u64,
    pub misses: u64,
}

/// Invalid configurations are rejected before allocating cache storage.
#[derive(Clone, Copy, Debug, PartialEq, Eq, Structural)]
pub enum CacheError {
    ZeroSets,
    ZeroWays,
    InvalidLineSize,
}

/// One way of a set: the stored tag, the logical time of its last use, and whether it holds data.
#[derive(Clone, Copy, Debug, PartialEq, Eq, Structural)]
pub struct CacheLine {
    pub tag: u64,
    pub last_used: u64,
    pub valid: bool,
}

/// The abstract contents of a cache.
pub struct CacheView {
    pub config: CacheConfig,
    pub lines: Seq<Seq<CacheLine>>,
    pub clock: u64,
    pub hits: u64,
    pub misses: u64,
}

/// A bounded set-associative cache; an access is O(ways).
#[derive(Debug, PartialEq, Eq)]
pub struct SetAssociativeCache {
    config: CacheConfig,
    lines: Vec<Vec<CacheLine>>,
    clock: u64,
    hits: u64,
    misses: u64,
}

/// `n` is a power of two (1, 2, 4, ...).
pub open spec fn is_power_of_two(n: nat) -> bool
    decreases n,
{
    if n <= 1 {
        n == 1
    } else {
        n % 2 == 0 && is_power_of_two(n / 2)
    }
}

/// The empty way.
pub open spec fn empty_line() -> CacheLine {
    CacheLine { tag: 0, last_used: 0, valid: false }
}

/// `sets` sets of `ways` empty ways each.
pub open spec fn empty_lines(sets: nat, ways: nat) -> Seq<Seq<CacheLine>> {
    Seq::new(sets, |i: int| Seq::new(ways, |j: int| empty_line()))
}

/// The outcome of `SetAssociativeCache::new`.
pub open spec fn new_spec(config: CacheConfig) -> Result<CacheView, CacheError> {
    if config.sets == 0 {
        Err(CacheError::ZeroSets)
    } else if config.ways == 0 {
        Err(CacheError::ZeroWays)
    } else if !is_power_of_two(config.line_bytes as nat) {
        Err(CacheError::InvalidLineSize)
    } else {
        Ok(
            CacheView {
                config,
                lines: empty_lines(config.sets as nat, config.ways as nat),
                clock: 0,
                hits: 0,
                misses: 0,
            },
        )
    }
}

/// Shape of a usable cache: a positive number of sets and ways, a power-of-two line size, and
/// storage of exactly `sets × ways` lines.
pub open spec fn view_well_formed(v: CacheView) -> bool {
    &&& v.config.sets > 0
    &&& v.config.ways > 0
    &&& is_power_of_two(v.config.line_bytes as nat)
    &&& v.lines.len() == v.config.sets
    &&& forall|i: int| 0 <= i < v.lines.len() ==> (#[trigger] v.lines[i]).len() == v.config.ways
}

/// The memory block of an address.
pub open spec fn block_of(v: CacheView, address: u32) -> nat {
    (address as nat) / (v.config.line_bytes as nat)
}

/// The set an address maps to.
pub open spec fn set_index_of(v: CacheView, address: u32) -> int {
    (block_of(v, address) % (v.config.sets as nat)) as int
}

/// The tag an address is stored under.
pub open spec fn tag_of(v: CacheView, address: u32) -> u64 {
    (block_of(v, address) / (v.config.sets as nat)) as u64
}

/// The first way at or after `from` holding `tag`.
pub open spec fn find_tag(set: Seq<CacheLine>, tag: u64, from: int) -> Option<int>
    decreases set.len() - from,
{
    if from < 0 || from >= set.len() {
        None
    } else if set[from].valid && set[from].tag == tag {
        Some(from)
    } else {
        find_tag(set, tag, from + 1)
    }
}

/// The first invalid way at or after `from`.
pub open spec fn find_invalid(set: Seq<CacheLine>, from: int) -> Option<int>
    decreases set.len() - from,
{
    if from < 0 || from >= set.len() {
        None
    } else if !set[from].valid {
        Some(from)
    } else {
        find_invalid(set, from + 1)
    }
}

/// The first way with the smallest `last_used` among `best` and the ways at or after `from`.
pub open spec fn least_recent(set: Seq<CacheLine>, best: int, from: int) -> int
    decreases set.len() - from,
{
    if from < 0 || from >= set.len() {
        best
    } else if set[from].last_used < set[best].last_used {
        least_recent(set, from, from + 1)
    } else {
        least_recent(set, best, from + 1)
    }
}

/// The way replaced on a miss: the first invalid way, else the least recently used one.
pub open spec fn victim_of(set: Seq<CacheLine>) -> int {
    match find_invalid(set, 0) {
        Some(i) => i,
        None => least_recent(set, 0, 1),
    }
}

/// `x + 1`, saturating at `u64::MAX`.
pub open spec fn saturating_inc(x: u64) -> u64 {
    if x == u64::MAX {
        u64::MAX
    } else {
        (x + 1) as u64
    }
}

/// What one access does: the new cache contents and whether it hit.
pub open spec fn access_spec(v: CacheView, address: u32) -> (CacheView, bool) {
    let clock = saturating_inc(v.clock);
    let s = set_index_of(v, address);
    let tag = tag_of(v, address);
    let set = v.lines[s];
    match find_tag(set, tag, 0) {
        Some(w) => (
            CacheView {
                lines: v.lines.update(s, set.update(w, CacheLine { last_used: clock, ..set[w] })),
                clock,
                hits: saturating_inc(v.hits),
                ..v
            },
            true,
        ),
        None => (
            CacheView {
                lines: v.lines.update(
                    s,
                    set.update(victim_of(set), CacheLine { tag, last_used: clock, valid: true }),
                ),
                clock,
                misses: saturating_inc(v.misses),
                ..v
            },
            false,
        ),
    }
}

/// The counters that `stats` reports.
pub open spec fn stats_spec(v: CacheView) -> CacheStats {
    CacheStats { accesses: (v.hits + v.misses) as u64, hits: v.hits, misses: v.misses }
}

/// The contents of a vector of sets.
pub open spec fn lines_view(lines: Seq<Vec<CacheLine>>) -> Seq<Seq<CacheLine>> {
    Seq::new(lines.len(), |i: int| lines[i]@)
}

impl View for SetAssociativeCache {
    type V = CacheView;

    closed spec fn view(&self) -> CacheView {
        CacheView {
            config: self.config,
            lines: lines_view(self.lines@),
            clock: self.clock,
            hits: self.hits,
            misses: self.misses,
        }
    }
}

fn is_power_of_two_exec(n: u32) -> (result: bool)
    ensures
        result == is_power_of_two(n as nat),
{
    let mut v = n;
    while v > 1 && v % 2 == 0
        invariant
            is_power_of_two(v as nat) == is_power_of_two(n as nat),
        decreases v,
    {
        v = v / 2;
    }
    v == 1
}

proof fn lemma_find_tag_range(set: Seq<CacheLine>, tag: u64, from: int)
    ensures
        find_tag(set, tag, from) matches Some(w) ==> from <= w < set.len() && set[w].valid
            && set[w].tag == tag,
    decreases set.len() - from,
{
    if 0 <= from < set.len() {
        lemma_find_tag_range(set, tag, from + 1);
    }
}

proof fn lemma_find_invalid_range(set: Seq<CacheLine>, from: int)
    ensures
        find_invalid(set, from) matches Some(w) ==> from <= w < set.len() && !set[w].valid,
    decreases set.len() - from,
{
    if 0 <= from < set.len() {
        lemma_find_invalid_range(set, from + 1);
    }
}

proof fn lemma_least_recent_range(set: Seq<CacheLine>, best: int, from: int)
    requires
        0 <= best < set.len(),
    ensures
        0 <= least_recent(set, best, from) < set.len(),
    decreases set.len() - from,
{
    if 0 <= from < set.len() {
        if set[from].last_used < set[best].last_used {
            lemma_least_recent_range(set, from, from + 1);
        } else {
            lemma_least_recent_range(set, best, from + 1);
        }
    }
}

/// The replaced way is a way of the set.
pub proof fn lemma_victim_in_range(set: Seq<CacheLine>)
    requires
        set.len() > 0,
    ensures
        0 <= victim_of(set) < set.len(),
{
    lemma_find_invalid_range(set, 0);
    lemma_least_recent_range(set, 0, 1);
}

/// The text of a configuration error.
pub open spec fn cache_error_text(error: CacheError) -> Seq<char> {
    match error {
        CacheError::ZeroSets => "cache must contain at least one set"@,
        CacheError::ZeroWays => "cache must contain at least one way"@,
        CacheError::InvalidLineSize => "cache line size must be a non-zero power of two"@,
    }
}

impl CacheError {
    /// Renders the configuration error.
    pub fn to_string(&self) -> (text: String)
        ensures
            text@ == cache_error_text(*self),
    {
        match self {
            CacheError::ZeroSets => "cache must contain at least one set".to_owned(),
            CacheError::ZeroWays => "cache must contain at least one way".to_owned(),
            CacheError::InvalidLineSize => "cache line size must be a non-zero power of two".to_owned(),
        }
    }
}

proof fn lemma_find_tag_complete(set: Seq<CacheLine>, tag: u64, from: int, w: int)
    requires
        0 <= from <= w < set.len(),
        set[w].valid,
        set[w].tag == tag,
    ensures
        find_tag(set, tag, from) is Some,
    decreases w - from,
{
    if !(set[from].valid && set[from].tag == tag) {
        lemma_find_tag_complete(set, tag, from + 1, w);
    }
}

proof fn lemma_find_tag_none_when_invalid(set: Seq<CacheLine>, tag: u64, from: int)
    requires
        forall|i: int| 0 <= i < set.len() ==> !(#[trigger] set[i]).valid,
    ensures
        find_tag(set, tag, from) is None,
    decreases set.len() - from,
{
    if 0 <= from < set.len() {
        lemma_find_tag_none_when_invalid(set, tag, from + 1);
    }
}

proof fn lemma_find_invalid_first(set: Seq<CacheLine>, from: int)
    requires
        0 <= from,
    ensures
        match find_invalid(set, from) {
            Some(w) => from <= w < set.len() && !set[w].valid && forall|j: int|
                from <= j < w ==> (#[trigger] set[j]).valid,
            None => forall|j: int| from <= j < set.len() ==> (#[trigger] set[j]).valid,
        },
    decreases set.len() - from,
{
    if from < set.len() {
        lemma_find_invalid_first(set, from + 1);
    }
}

proof fn lemma_least_recent_minimal(set: Seq<CacheLine>, best: int, from: int)
    requires
        0 <= best < set.len(),
        1 <= from,
        forall|j: int| 0 <= j < from && j < set.len() ==> set[best].last_used <= (#[trigger] set[j]).last_used,
    ensures
        forall|j: int| 0 <= j < set.len() ==> set[least_recent(set, best, from)].last_used <= (#[trigger] set[j]).last_used,
    decreases set.len() - from,
{
    if from < set.len() {
        if set[from].last_used < set[best].last_used {
            lemma_least_recent_minimal(set, from, from + 1);
        } else {
            lemma_least_recent_minimal(set, best, from + 1);
        }
    }
}

/// Replacement policy: a miss fills the first invalid way when there is one; otherwise it
/// evicts a least-recently-used way.
pub proof fn lemma_victim_is_invalid_or_least_recent(set: Seq<CacheLine>)
    requires
        set.len() > 0,
    ensures
        0 <= victim_of(set) < set.len(),
        (exists|j: int| 0 <= j < set.len() && !(#[trigger] set[j]).valid) ==> !set[victim_of(set)].valid
            && forall|j: int| 0 <= j < victim_of(set) ==> (#[trigger] set[j]).valid,
        (forall|j: int| 0 <= j < set.len() ==> (#[trigger] set[j]).valid) ==> forall|j: int|
            0 <= j < set.len() ==> set[victim_of(set)].last_used <= (#[trigger] set[j]).last_used,
{
    lemma_victim_in_range(set);
    lemma_find_invalid_first(set, 0);
    lemma_least_recent_minimal(set, 0, 1);
}

/// An access that follows an access to the same address hits: the first access leaves the
/// address's block cached.
pub proof fn lemma_access_then_hit(v: CacheView, address: u32)
    requires
        view_well_formed(v),
    ensures
        access_spec(access_spec(v, address).0, address).1,
{
    let s = set_index_of(v, address);
    let tag = tag_of(v, address);
    let set = v.lines[s];
    let after = access_spec(v, address).0;
    assert(0 <= s < v.lines.len());
    lemma_find_tag_range(set, tag, 0);
    match find_tag(set, tag, 0) {
        Some(w) => {
            lemma_find_tag_complete(after.lines[s], tag, 0, w);
        },
        None => {
            lemma_victim_in_range(set);
            lemma_find_tag_complete(after.lines[s], tag, 0, victim_of(set));
        },
    }
}

/// A sequence of accesses in order: the final contents and whether each access hit.
pub open spec fn access_all(v: CacheView, addresses: Seq<u32>) -> (CacheView, Seq<bool>)
    decreases addresses.len(),
{
    if addresses.len() == 0 {
        (v, seq![])
    } else {
        let (before, outcomes) = access_all(v, addresses.drop_last());
        let (after, hit) = access_spec(before, addresses.last());
        (after, outcomes.push(hit))
    }
}

/// The number of `true` entries.
pub open spec fn count_hits(outcomes: Seq<bool>) -> nat
    decreases outcomes.len(),
{
    if outcomes.len() == 0 {
        0
    } else {
        count_hits(outcomes.drop_last()) + if outcomes.last() {
            1nat
        } else {
            0nat
        }
    }
}

/// Over any sequence of accesses (short enough that no counter saturates) the hit counter
/// grows by the number of accesses that hit and the miss counter by the number that missed,
/// so `stats` after them reports exactly those numbers on top of where it started (zero for a
/// new or reset cache).
pub proof fn lemma_access_all_counts(v: CacheView, addresses: Seq<u32>)
    requires
        view_well_formed(v),
        v.hits + v.misses + addresses.len() <= u64::MAX,
    ensures
        ({
            let (after, outcomes) = access_all(v, addresses);
            &&& outcomes.len() == addresses.len()
            &&& after.hits == v.hits + count_hits(outcomes)
            &&& after.misses == v.misses + (addresses.len() - count_hits(outcomes))
            &&& after.config == v.config
            &&& view_well_formed(after)
        }),
    decreases addresses.len(),
{
    if addresses.len() > 0 {
        let rest = addresses.drop_last();
        lemma_access_all_counts(v, rest);
        let (before, outcomes) = access_all(v, rest);
        lemma_count_hits_bound(outcomes);
        lemma_access_counts(before, addresses.last());
        let (after, hit) = access_spec(before, addresses.last());
        assert(outcomes.push(hit).drop_last() =~= outcomes);
    }
}

/// At most every outcome is a hit.
proof fn lemma_count_hits_bound(outcomes: Seq<bool>)
    ensures
        count_hits(outcomes) <= outcomes.len(),
    decreases outcomes.len(),
{
    if outcomes.len() > 0 {
        lemma_count_hits_bound(outcomes.drop_last());
    }
}

/// Every access counts as exactly one hit or one miss (until a counter saturates), and the
/// shape of the cache is kept.
pub proof fn lemma_access_counts(v: CacheView, address: u32)
    requires
        view_well_formed(v),
        v.hits < u64::MAX,
        v.misses < u64::MAX,
    ensures
        ({
            let (after, hit) = access_spec(v, address);
            &&& after.hits + after.misses == v.hits + v.misses + 1
            &&& hit ==> after.hits == v.hits + 1
            &&& !hit ==> after.misses == v.misses + 1
            &&& view_well_formed(after)
        }),
{
    let s = set_index_of(v, address);
    let set = v.lines[s];
    lemma_victim_in_range(set);
    lemma_find_tag_range(set, tag_of(v, address), 0);
    let after = access_spec(v, address).0;
    assert forall|i: int| 0 <= i < after.lines.len() implies (#[trigger] after.lines[i]).len()
        == after.config.ways by {
        if i != s {
            assert(after.lines[i] == v.lines[i]);
        }
    }
}

/// After a reset, every access misses until something is cached again.
pub proof fn lemma_reset_then_miss(config: CacheConfig, address: u32)
    requires
        config.sets > 0,
        config.ways > 0,
        config.line_bytes > 0,
    ensures
        ({
            let v = CacheView {
                config,
                lines: empty_lines(config.sets as nat, config.ways as nat),
                clock: 0,
                hits: 0,
                misses: 0,
            };
            !access_spec(v, address).1
        }),
{
    let v = CacheView {
        config,
        lines: empty_lines(config.sets as nat, config.ways as nat),
        clock: 0,
        hits: 0,
        misses: 0,
    };
    let s = set_index_of(v, address);
    assert(0 <= s < config.sets);
    lemma_find_tag_none_when_invalid(v.lines[s], tag_of(v, address), 0);
}

/// The valid ways of a set hold distinct tags and distinct use times, none after `clock`.
pub open spec fn set_consistent(set: Seq<CacheLine>, clock: u64) -> bool {
    &&& forall|i: int, j: int|
        0 <= i < set.len() && 0 <= j < set.len() && i != j && (#[trigger] set[i]).valid
            && (#[trigger] set[j]).valid ==> set[i].tag != set[j].tag && set[i].last_used
            != set[j].last_used
    &&& forall|i: int| 0 <= i < set.len() && (#[trigger] set[i]).valid ==> set[i].last_used <= clock
}

/// A well-formed cache whose every set is consistent with its clock.
pub open spec fn cache_consistent(v: CacheView) -> bool {
    &&& view_well_formed(v)
    &&& forall|s: int| 0 <= s < v.lines.len() ==> set_consistent(#[trigger] v.lines[s], v.clock)
}

/// A new cache is consistent.
pub proof fn lemma_new_consistent(config: CacheConfig)
    ensures
        new_spec(config) matches Ok(v) ==> cache_consistent(v),
{
}

/// A reset cache is consistent.
pub proof fn lemma_reset_consistent(v: CacheView)
    requires
        view_well_formed(v),
    ensures
        cache_consistent(
            CacheView {
                lines: empty_lines(v.config.sets as nat, v.config.ways as nat),
                clock: 0,
                hits: 0,
                misses: 0,
                ..v
            },
        ),
{
}

/// An access keeps a cache consistent while its clock has not reached `u64::MAX`.
pub proof fn lemma_access_consistent(v: CacheView, address: u32)
    requires
        cache_consistent(v),
        v.clock < u64::MAX,
    ensures
        cache_consistent(access_spec(v, address).0),
{
    let s = set_index_of(v, address);
    let tag = tag_of(v, address);
    let set = v.lines[s];
    let after = access_spec(v, address).0;
    lemma_find_tag_range(set, tag, 0);
    lemma_victim_in_range(set);
    assert(set_consistent(set, v.clock));
    match find_tag(set, tag, 0) {
        Some(w) => {
            let new_set = set.update(w, CacheLine { last_used: (v.clock + 1) as u64, ..set[w] });
            assert(after.lines[s] == new_set);
            assert(set_consistent(new_set, after.clock));
        },
        None => {
            let x = victim_of(set);
            let new_set = set.update(x, CacheLine { tag, last_used: (v.clock + 1) as u64, valid: true });
            assert(after.lines[s] == new_set);
            assert forall|j: int| 0 <= j < set.len() && j != x && (#[trigger] set[j]).valid implies set[j].tag
                != tag by {
                if set[j].tag == tag {
                    lemma_find_tag_complete(set, tag, 0, j);
                }
            }
            assert(set_consistent(new_set, after.clock));
        },
    }
    assert forall|t: int| 0 <= t < after.lines.len() implies set_consistent(
        #[trigger] after.lines[t],
        after.clock,
    ) by {
        if t != s {
            assert(after.lines[t] == v.lines[t]);
            assert(set_consistent(v.lines[t], v.clock));
        }
    }
}

/// In a full, consistent set where `ia` holds some block, and every way used after `ia` holds
/// one of the tags of `others` other than the missing tag `b`, some other way was used before
/// `ia` (when `others` has fewer entries than the set has ways).
proof fn lemma_older_way_exists(set: Seq<CacheLine>, clock: u64, ia: int, others: Seq<u64>, b: u64)
    requires
        set_consistent(set, clock),
        0 <= ia < set.len(),
        forall|j: int| 0 <= j < set.len() ==> (#[trigger] set[j]).valid,
        others.len() < set.len(),
        others.contains(b),
        forall|j: int| 0 <= j < set.len() ==> (#[trigger] set[j]).tag != b,
        forall|j: int|
            0 <= j < set.len() && (#[trigger] set[j]).last_used > set[ia].last_used
                ==> others.contains(set[j].tag),
    ensures
        exists|j: int| 0 <= j < set.len() && j != ia && (#[trigger] set[j]).last_used < set[ia].last_used,
{
    if !exists|j: int| 0 <= j < set.len() && j != ia && (#[trigger] set[j]).last_used < set[ia].last_used {
        let ways = vstd::set_lib::set_int_range(0, set.len() as int).remove(ia);
        vstd::set_lib::lemma_int_range(0, set.len() as int);
        assert(ways.len() == set.len() - 1);
        let f = |j: int| set[j].tag;
        let tags = ways.map(f);
        assert(vstd::relations::injective_on(f, ways)) by {
            assert forall|i: int, j: int| ways.contains(i) && ways.contains(j) && #[trigger] f(i)
                == #[trigger] f(j) implies i == j by {
                assert(set[i].valid && set[j].valid);
            }
        }
        vstd::set_lib::lemma_map_size(ways, tags, f);
        let pool = others.to_set().remove(b);
        others.lemma_cardinality_of_set();
        assert forall|t: u64| tags.contains(t) implies pool.contains(t) by {
            let j = choose|j: int| ways.contains(j) && f(j) == t;
            assert(set[j].last_used != set[ia].last_used) by {
                assert(set[j].valid && set[ia].valid);
            }
            assert(set[j].last_used > set[ia].last_used);
            assert(others.contains(set[j].tag));
            assert(set[j].tag != b);
        }
        assert(others.to_set().contains(b));
        vstd::set_lib::lemma_len_subset(tags, pool);
        assert(false);
    }
}

/// Way `ia` holds `tag`, and every valid way used after it holds one of the tags of `others`.
pub open spec fn recent_kept(set: Seq<CacheLine>, ia: int, tag: u64, others: Seq<u64>) -> bool {
    &&& 0 <= ia < set.len()
    &&& set[ia].valid
    &&& set[ia].tag == tag
    &&& forall|j: int|
        0 <= j < set.len() && (#[trigger] set[j]).valid && set[j].last_used > set[ia].last_used
            ==> others.contains(set[j].tag)
}

/// An access to another set, or to a block of set `sa` whose tag is one of `others` (and not
/// `tag`), keeps way `ia` of set `sa` holding `tag`.
proof fn lemma_access_keeps_recent(w: CacheView, sa: int, ia: int, tag: u64, others: Seq<u64>, x: u32)
    requires
        cache_consistent(w),
        w.clock < u64::MAX,
        0 <= sa < w.lines.len(),
        recent_kept(w.lines[sa], ia, tag, others),
        others.len() < w.config.ways,
        set_index_of(w, x) == sa ==> tag_of(w, x) != tag && others.contains(tag_of(w, x)),
    ensures
        ({
            let after = access_spec(w, x).0;
            &&& recent_kept(after.lines[sa], ia, tag, others)
            &&& after.config == w.config
            &&& after.clock == w.clock + 1
            &&& cache_consistent(after)
        }),
{
    lemma_access_consistent(w, x);
    let after = access_spec(w, x).0;
    let s = set_index_of(w, x);
    if s == sa {
        let b = tag_of(w, x);
        let set = w.lines[sa];
        let ta = set[ia].last_used;
        assert(set_consistent(set, w.clock));
        lemma_find_tag_range(set, b, 0);
        match find_tag(set, b, 0) {
            Some(k) => {
                assert(k != ia);
                let new_set = set.update(k, CacheLine { last_used: (w.clock + 1) as u64, ..set[k] });
                assert(after.lines[sa] == new_set);
                assert(recent_kept(new_set, ia, tag, others));
            },
            None => {
                let v_way = victim_of(set);
                lemma_victim_is_invalid_or_least_recent(set);
                if forall|j: int| 0 <= j < set.len() ==> (#[trigger] set[j]).valid {
                    assert forall|j: int| 0 <= j < set.len() implies (#[trigger] set[j]).tag != b by {
                        if set[j].tag == b {
                            lemma_find_tag_complete(set, b, 0, j);
                        }
                    }
                    lemma_older_way_exists(set, w.clock, ia, others, b);
                    let j = choose|j: int| 0 <= j < set.len() && j != ia && (#[trigger] set[j]).last_used
                        < ta;
                    assert(set[v_way].last_used <= set[j].last_used);
                }
                assert(v_way != ia);
                let new_set = set.update(
                    v_way,
                    CacheLine { tag: b, last_used: (w.clock + 1) as u64, valid: true },
                );
                assert(after.lines[sa] == new_set);
                assert(recent_kept(new_set, ia, tag, others));
            },
        }
    } else {
        assert(after.lines[sa] == w.lines[sa]);
    }
}

/// A run of accesses that keep way `ia` of set `sa` holding `tag` (see
/// `lemma_access_keeps_recent`) keeps it there.
proof fn lemma_accesses_keep_recent(
    w: CacheView,
    sa: int,
    ia: int,
    tag: u64,
    others: Seq<u64>,
    later: Seq<u32>,
)
    requires
        cache_consistent(w),
        w.clock + later.len() < u64::MAX,
        0 <= sa < w.lines.len(),
        recent_kept(w.lines[sa], ia, tag, others),
        others.len() < w.config.ways,
        forall|k: int|
            0 <= k < later.len() && set_index_of(w, #[trigger] later[k]) == sa ==> tag_of(w, later[k])
                != tag && others.contains(tag_of(w, later[k])),
    ensures
        ({
            let after = access_all(w, later).0;
            &&& recent_kept(after.lines[sa], ia, tag, others)
            &&& after.config == w.config
            &&& after.clock == w.clock + later.len()
            &&& cache_consistent(after)
        }),
    decreases later.len(),
{
    if later.len() > 0 {
        let rest = later.drop_last();
        assert forall|k: int|
            0 <= k < rest.len() && set_index_of(w, #[trigger] rest[k]) == sa implies tag_of(w, rest[k])
                != tag && others.contains(tag_of(w, rest[k])) by {
            assert(rest[k] == later[k]);
        }
        lemma_accesses_keep_recent(w, sa, ia, tag, others, rest);
        let before = access_all(w, rest).0;
        let x = later.last();
        assert(x == later[later.len() - 1]);
        assert(set_index_of(before, x) == set_index_of(w, x));
        lemma_access_keeps_recent(before, sa, ia, tag, others, x);
    }
}

/// Least-recently-used replacement: after an access to address `a`, as long as the accesses
/// that follow and fall into `a`'s set name fewer distinct blocks (other than `a`'s) than the
/// set has ways, an access to `a` hits. Blocks of one set differ by their tags; `others`
/// lists the tags of the blocks that the later accesses bring into the set. The cache must be
/// consistent (as every cache is from `new` on, see `lemma_new_consistent` and
/// `lemma_access_consistent`) and its clock far from saturation.
pub proof fn lemma_recent_block_hits(v: CacheView, a: u32, later: Seq<u32>, others: Seq<u64>)
    requires
        cache_consistent(v),
        v.clock + later.len() + 1 < u64::MAX,
        others.len() < v.config.ways,
        forall|k: int|
            0 <= k < later.len() && set_index_of(v, #[trigger] later[k]) == set_index_of(v, a)
                ==> tag_of(v, later[k]) != tag_of(v, a) && others.contains(tag_of(v, later[k])),
    ensures
        access_spec(access_all(access_spec(v, a).0, later).0, a).1,
{
    let sa = set_index_of(v, a);
    let tag = tag_of(v, a);
    let set = v.lines[sa];
    let w = access_spec(v, a).0;
    lemma_access_consistent(v, a);
    assert(set_consistent(set, v.clock));
    lemma_find_tag_range(set, tag, 0);
    lemma_victim_in_range(set);
    let ia = match find_tag(set, tag, 0) {
        Some(k) => k,
        None => victim_of(set),
    };
    assert(recent_kept(w.lines[sa], ia, tag, others)) by {
        assert forall|j: int|
            0 <= j < w.lines[sa].len() && (#[trigger] w.lines[sa][j]).valid && w.lines[sa][j].last_used
                > w.lines[sa][ia].last_used implies others.contains(w.lines[sa][j].tag) by {
            assert(j != ia);
            assert(w.lines[sa][j] == set[j]);
        }
    }
    assert forall|k: int|
        0 <= k < later.len() && set_index_of(w, #[trigger] later[k]) == sa implies tag_of(w, later[k])
            != tag && others.contains(tag_of(w, later[k])) by {
        assert(set_index_of(w, later[k]) == set_index_of(v, later[k]));
    }
    lemma_accesses_keep_recent(w, sa, ia, tag, others, later);
    let after = access_all(w, later).0;
    lemma_find_tag_complete(after.lines[sa], tag, 0, ia);
    assert(set_index_of(after, a) == sa);
    assert(tag_of(after, a) == tag);
}

/// The tags of the accesses among `addresses` that fall into set `s`, in order.
pub open spec fn set_tags(v: CacheView, s: int, addresses: Seq<u32>) -> Seq<u64>
    decreases addresses.len(),
{
    if addresses.len() == 0 {
        seq![]
    } else if set_index_of(v, addresses.last()) == s {
        set_tags(v, s, addresses.drop_last()).push(tag_of(v, addresses.last()))
    } else {
        set_tags(v, s, addresses.drop_last())
    }
}

/// No valid way of `set` holds `tag`.
pub open spec fn tag_absent(set: Seq<CacheLine>, tag: u64) -> bool {
    forall|j: int| 0 <= j < set.len() ==> !((#[trigger] set[j]).valid && set[j].tag == tag)
}

/// A valid way of `set` holds `tag` and was used after `time`.
pub open spec fn used_after(set: Seq<CacheLine>, tag: u64, time: u64) -> bool {
    exists|j: int|
        0 <= j < set.len() && (#[trigger] set[j]).valid && set[j].tag == tag && set[j].last_used
            > time
}

/// Either `tag` has left the set, or way `ia` still holds it and every tag of `tags` sits
/// in a way used after it.
pub open spec fn displacing(set: Seq<CacheLine>, ia: int, tag: u64, tags: Seq<u64>) -> bool {
    ||| tag_absent(set, tag)
    ||| {
        &&& 0 <= ia < set.len()
        &&& set[ia].valid
        &&& set[ia].tag == tag
        &&& forall|k: int| 0 <= k < tags.len() ==> used_after(set, #[trigger] tags[k], set[ia].last_used)
    }
}

/// An access whose block, in set `sa`, is not the block of `tag` keeps `displacing`, with the
/// access's tag added.
proof fn lemma_access_displaces(w: CacheView, sa: int, ia: int, tag: u64, tags: Seq<u64>, x: u32)
    requires
        cache_consistent(w),
        w.clock < u64::MAX,
        0 <= sa < w.lines.len(),
        displacing(w.lines[sa], ia, tag, tags),
        set_index_of(w, x) == sa ==> tag_of(w, x) != tag,
    ensures
        ({
            let after = access_spec(w, x).0;
            &&& displacing(
                after.lines[sa],
                ia,
                tag,
                if set_index_of(w, x) == sa {
                    tags.push(tag_of(w, x))
                } else {
                    tags
                },
            )
            &&& after.config == w.config
            &&& after.clock == w.clock + 1
            &&& cache_consistent(after)
        }),
{
    lemma_access_consistent(w, x);
    let after = access_spec(w, x).0;
    if set_index_of(w, x) == sa {
        let b = tag_of(w, x);
        let set = w.lines[sa];
        let new_tags = tags.push(b);
        assert(set_consistent(set, w.clock));
        lemma_find_tag_range(set, b, 0);
        lemma_victim_in_range(set);
        let changed: int = match find_tag(set, b, 0) {
            Some(k) => k,
            None => victim_of(set),
        };
        let new_set = after.lines[sa];
        assert(new_set == set.update(changed, new_set[changed]));
        assert(new_set[changed].valid && new_set[changed].tag == b && new_set[changed].last_used
            == w.clock + 1);
        if tag_absent(set, tag) {
            assert(tag_absent(new_set, tag)) by {
                assert forall|j: int| 0 <= j < new_set.len() implies !((#[trigger] new_set[j]).valid
                    && new_set[j].tag == tag) by {
                    if j != changed {
                        assert(new_set[j] == set[j]);
                    }
                }
            }
        } else if changed == ia {
            assert(tag_absent(new_set, tag)) by {
                assert forall|j: int| 0 <= j < new_set.len() implies !((#[trigger] new_set[j]).valid
                    && new_set[j].tag == tag) by {
                    if j != changed {
                        assert(new_set[j] == set[j]);
                    }
                }
            }
        } else {
            let ta = set[ia].last_used;
            assert(new_set[ia] == set[ia]);
            if find_tag(set, b, 0) is None {
                lemma_victim_is_invalid_or_least_recent(set);
            }
            assert forall|k: int| 0 <= k < new_tags.len() implies used_after(
                new_set,
                #[trigger] new_tags[k],
                ta,
            ) by {
                if k == tags.len() {
                    assert(new_tags[k] == b);
                    assert(new_set[changed].last_used > ta);
                } else {
                    assert(new_tags[k] == tags[k]);
                    assert(used_after(set, tags[k], ta));
                    let j = choose|j: int|
                        0 <= j < set.len() && (#[trigger] set[j]).valid && set[j].tag == tags[k]
                            && set[j].last_used > ta;
                    if j == changed {
                        if find_tag(set, b, 0) is None {
                            if exists|i: int| 0 <= i < set.len() && !(#[trigger] set[i]).valid {
                                assert(!set[changed].valid);
                            } else {
                                assert(set[changed].last_used <= set[ia].last_used);
                            }
                        }
                        assert(new_set[j].last_used > ta);
                    } else {
                        assert(new_set[j] == set[j]);
                    }
                }
            }
        }
    } else {
        assert(after.lines[sa] == w.lines[sa]);
    }
}

/// A run of accesses none of which is to the block of `tag` in set `sa` keeps `displacing`
/// with the tags of the run's accesses into `sa` added.
proof fn lemma_accesses_displace(
    w: CacheView,
    sa: int,
    ia: int,
    tag: u64,
    later: Seq<u32>,
)
    requires
        cache_consistent(w),
        w.clock + later.len() < u64::MAX,
        0 <= sa < w.lines.len(),
        displacing(w.lines[sa], ia, tag, seq![]),
        forall|k: int|
            0 <= k < later.len() && set_index_of(w, #[trigger] later[k]) == sa ==> tag_of(w, later[k])
                != tag,
    ensures
        ({
            let after = access_all(w, later).0;
            &&& displacing(after.lines[sa], ia, tag, set_tags(w, sa, later))
            &&& after.config == w.config
            &&& after.clock == w.clock + later.len()
            &&& cache_consistent(after)
        }),
    decreases later.len(),
{
    if later.len() > 0 {
        let rest = later.drop_last();
        assert forall|k: int|
            0 <= k < rest.len() && set_index_of(w, #[trigger] rest[k]) == sa implies tag_of(w, rest[k])
                != tag by {
            assert(rest[k] == later[k]);
        }
        lemma_accesses_displace(w, sa, ia, tag, rest);
        let before = access_all(w, rest).0;
        let x = later.last();
        assert(x == later[later.len() - 1]);
        assert(set_index_of(before, x) == set_index_of(w, x));
        assert(tag_of(before, x) == tag_of(w, x));
        lemma_access_displaces(before, sa, ia, tag, set_tags(w, sa, rest), x);
    }
}

/// A set of tags that each sit in a valid way of a consistent set has no more tags than
/// the set has ways.
proof fn lemma_present_tags_fit(set: Seq<CacheLine>, clock: u64, tags: Set<u64>)
    requires
        set_consistent(set, clock),
        tags.finite(),
        forall|t: u64|
            tags.contains(t) ==> exists|j: int|
                0 <= j < set.len() && (#[trigger] set[j]).valid && set[j].tag == t,
    ensures
        tags.len() <= set.len(),
{
    let range = vstd::set_lib::set_int_range(0, set.len() as int);
    vstd::set_lib::lemma_int_range(0, set.len() as int);
    let ways = range.filter(|j: int| set[j].valid && tags.contains(set[j].tag));
    vstd::set_lib::lemma_len_subset(ways, range);
    let f = |j: int| set[j].tag;
    assert(ways.map(f) =~= tags) by {
        assert forall|t: u64| tags.contains(t) implies #[trigger] ways.map(f).contains(t) by {
            let j = choose|j: int| 0 <= j < set.len() && (#[trigger] set[j]).valid && set[j].tag == t;
            assert(ways.contains(j));
        }
    }
    vstd::set_lib::lemma_map_size_bound(ways, tags, f);
}

/// The distinct tags that a run brings into set `sa` all differ from `tag` when none of the
/// run's accesses into `sa` is to `tag`.
proof fn lemma_set_tags_avoid(v: CacheView, sa: int, later: Seq<u32>, tag: u64)
    requires
        forall|k: int|
            0 <= k < later.len() && set_index_of(v, #[trigger] later[k]) == sa ==> tag_of(v, later[k])
                != tag,
    ensures
        !set_tags(v, sa, later).contains(tag),
    decreases later.len(),
{
    if later.len() > 0 {
        let rest = later.drop_last();
        assert forall|k: int|
            0 <= k < rest.len() && set_index_of(v, #[trigger] rest[k]) == sa implies tag_of(v, rest[k])
                != tag by {
            assert(rest[k] == later[k]);
        }
        lemma_set_tags_avoid(v, sa, rest, tag);
        assert(later.last() == later[later.len() - 1]);
    }
}

/// Least-recently-used replacement, the other way round: after an access to address `a`,
/// once the accesses that follow, none to `a`'s block, have brought at least as many distinct
/// other blocks into `a`'s set as the set has ways, an access to `a` misses. (Blocks of one set
/// differ by their tags.) Together with `lemma_recent_block_hits` and
/// `lemma_unused_block_misses` this decides every access.
pub proof fn lemma_displaced_block_misses(v: CacheView, a: u32, later: Seq<u32>)
    requires
        cache_consistent(v),
        v.clock + later.len() + 1 < u64::MAX,
        forall|k: int|
            0 <= k < later.len() && set_index_of(v, #[trigger] later[k]) == set_index_of(v, a)
                ==> tag_of(v, later[k]) != tag_of(v, a),
        set_tags(v, set_index_of(v, a), later).to_set().len() >= v.config.ways,
    ensures
        !access_spec(access_all(access_spec(v, a).0, later).0, a).1,
{
    let sa = set_index_of(v, a);
    let tag = tag_of(v, a);
    let set = v.lines[sa];
    let w = access_spec(v, a).0;
    lemma_access_consistent(v, a);
    lemma_find_tag_range(set, tag, 0);
    lemma_victim_in_range(set);
    let ia = match find_tag(set, tag, 0) {
        Some(k) => k,
        None => victim_of(set),
    };
    assert(displacing(w.lines[sa], ia, tag, seq![]));
    assert forall|k: int|
        0 <= k < later.len() && set_index_of(w, #[trigger] later[k]) == sa implies tag_of(w, later[k])
            != tag by {
        assert(set_index_of(w, later[k]) == set_index_of(v, later[k]));
    }
    lemma_accesses_displace(w, sa, ia, tag, later);
    let after = access_all(w, later).0;
    let final_set = after.lines[sa];
    let tags = set_tags(w, sa, later);
    assert(tags == set_tags(v, sa, later)) by {
        lemma_set_tags_same_config(v, w, sa, later);
    }
    assert(set_index_of(after, a) == sa);
    assert(tag_of(after, a) == tag);
    if !tag_absent(final_set, tag) {
        assert(set_consistent(final_set, after.clock));
        let present = tags.to_set().insert(tag);
        lemma_set_tags_avoid(v, sa, later, tag);
        assert forall|t: u64| present.contains(t) implies exists|j: int|
            0 <= j < final_set.len() && (#[trigger] final_set[j]).valid && final_set[j].tag == t by {
            if t == tag {
                assert(final_set[ia].valid && final_set[ia].tag == t);
            } else {
                let k = choose|k: int| 0 <= k < tags.len() && tags[k] == t;
                assert(used_after(final_set, tags[k], final_set[ia].last_used));
            }
        }
        lemma_present_tags_fit(final_set, after.clock, present);
        assert(false);
    }
    assert forall|j: int| 0 <= j < final_set.len() implies !(#[trigger] final_set[j]).valid
        || final_set[j].tag != tag by {}
    if let Some(k) = find_tag(final_set, tag, 0) {
        lemma_find_tag_range(final_set, tag, 0);
    }
}

/// `set_tags` reads only the configuration.
proof fn lemma_set_tags_same_config(v: CacheView, w: CacheView, sa: int, later: Seq<u32>)
    requires
        v.config == w.config,
    ensures
        set_tags(v, sa, later) == set_tags(w, sa, later),
    decreases later.len(),
{
    if later.len() > 0 {
        lemma_set_tags_same_config(v, w, sa, later.drop_last());
    }
}

/// A block that no access has brought into its set is not cached: from a cache whose set
/// holds no way with `a`'s tag (every set of a new or reset cache), accesses none of which is
/// to `a`'s block leave it out, and an access to `a` misses.
pub proof fn lemma_unused_block_misses(v: CacheView, a: u32, later: Seq<u32>)
    requires
        view_well_formed(v),
        tag_absent(v.lines[set_index_of(v, a)], tag_of(v, a)),
        forall|k: int|
            0 <= k < later.len() && set_index_of(v, #[trigger] later[k]) == set_index_of(v, a)
                ==> tag_of(v, later[k]) != tag_of(v, a),
    ensures
        !access_spec(access_all(v, later).0, a).1,
{
    let sa = set_index_of(v, a);
    let tag = tag_of(v, a);
    lemma_unused_block_stays_out(v, sa, tag, later);
    let after = access_all(v, later).0;
    assert(set_index_of(after, a) == sa);
    assert(tag_of(after, a) == tag);
    if let Some(k) = find_tag(after.lines[sa], tag, 0) {
        lemma_find_tag_range(after.lines[sa], tag, 0);
    }
}

/// Accesses none of which is to `tag` in set `sa` never bring `tag` into `sa`.
proof fn lemma_unused_block_stays_out(v: CacheView, sa: int, tag: u64, later: Seq<u32>)
    requires
        view_well_formed(v),
        0 <= sa < v.lines.len(),
        tag_absent(v.lines[sa], tag),
        forall|k: int|
            0 <= k < later.len() && set_index_of(v, #[trigger] later[k]) == sa ==> tag_of(v, later[k])
                != tag,
    ensures
        ({
            let after = access_all(v, later).0;
            &&& tag_absent(after.lines[sa], tag)
            &&& after.config == v.config
            &&& view_well_formed(after)
        }),
    decreases later.len(),
{
    if later.len() > 0 {
        let rest = later.drop_last();
        assert forall|k: int|
            0 <= k < rest.len() && set_index_of(v, #[trigger] rest[k]) == sa implies tag_of(v, rest[k])
                != tag by {
            assert(rest[k] == later[k]);
        }
        lemma_unused_block_stays_out(v, sa, tag, rest);
        let before = access_all(v, rest).0;
        let x = later.last();
        assert(x == later[later.len() - 1]);
        let s = set_index_of(before, x);
        let set = before.lines[s];
        let b = tag_of(before, x);
        lemma_find_tag_range(set, b, 0);
        lemma_victim_in_range(set);
        let after = access_spec(before, x).0;
        assert(view_well_formed(after)) by {
            assert forall|i: int| 0 <= i < after.lines.len() implies (#[trigger] after.lines[i]).len()
                == after.config.ways by {
                if i != s {
                    assert(after.lines[i] == before.lines[i]);
                }
            }
        }
        if s == sa {
            let changed: int = match find_tag(set, b, 0) {
                Some(k) => k,
                None => victim_of(set),
            };
            assert forall|j: int| 0 <= j < after.lines[sa].len() implies !((
            #[trigger] after.lines[sa][j]).valid && after.lines[sa][j].tag == tag) by {
                if j != changed {
                    assert(after.lines[sa][j] == set[j]);
                }
            }
        } else {
            assert(after.lines[sa] == before.lines[sa]);
        }
    }
}

impl SetAssociativeCache {
    /// Every cache keeps its shape: a positive number of sets and ways, a power-of-two line
    /// size, and `sets × ways` lines.
    #[verifier::type_invariant]
    spec fn shape_is_kept(self) -> bool {
        view_well_formed(self@)
    }

    /// A one-line cache, standing in while a cache's storage is being updated.
    fn stand_in() -> (cache: SetAssociativeCache) {
        let mut set: Vec<CacheLine> = Vec::new();
        set.push(CacheLine { tag: 0, last_used: 0, valid: false });
        let mut lines: Vec<Vec<CacheLine>> = Vec::new();
        lines.push(set);
        let config = CacheConfig { sets: 1, ways: 1, line_bytes: 1 };
        proof {
            assert(lines_view(lines@).len() == 1);
            assert(lines_view(lines@)[0].len() == 1);
        }
        SetAssociativeCache { config, lines, clock: 0, hits: 0, misses: 0 }
    }

    /// Records an access to `address` and reports whether it hit.
    #[verifier::loop_isolation(false)]
    pub fn access(&mut self, address: u32) -> (hit: bool)
        ensures
            view_well_formed(final(self)@),
            (final(self)@, hit) == access_spec(old(self)@, address),
    {
        proof {
            use_type_invariant(&*self);
        }
        let ghost v = self@;
        let mut taken = SetAssociativeCache::stand_in();
        std::mem::swap(self, &mut taken);
        let SetAssociativeCache { config, mut lines, clock, hits, misses } = taken;
        let clock = clock.saturating_add(1);
        let block: u64 = (address / config.line_bytes) as u64;
        let set_count: u64 = config.sets as u64;
        let set_index: usize = (block % set_count) as usize;
        let tag: u64 = block / set_count;
        proof {
            assert(set_index == set_index_of(v, address));
            assert(tag == tag_of(v, address));
            assert(lines@[set_index as int]@ == v.lines[set_index as int]);
        }
        let ghost set = v.lines[set_index as int];
        let ways = lines[set_index].len();
        let mut i: usize = 0;
        while i < ways
            invariant
                ways == set.len(),
                i <= ways,
                find_tag(set, tag, 0) == find_tag(set, tag, i as int),
                lines@[set_index as int]@ == set,
                set_index < lines@.len(),
                lines_view(lines@) == v.lines,
            decreases ways - i,
        {
            let line = lines[set_index][i];
            if line.valid && line.tag == tag {
                let updated = CacheLine { tag: line.tag, last_used: clock, valid: true };
                lines[set_index][i] = updated;
                proof {
                    assert(lines_view(lines@) =~= v.lines.update(
                        set_index as int,
                        set.update(i as int, CacheLine { last_used: clock, ..set[i as int] }),
                    ));
                }
                *self = SetAssociativeCache {
                    config,
                    lines,
                    clock,
                    hits: hits.saturating_add(1),
                    misses,
                };
                return true;
            }
            i = i + 1;
        }
        let mut victim: usize = 0;
        let mut found_invalid = false;
        let mut j: usize = 0;
        while j < ways
            invariant
                ways == set.len(),
                j <= ways,
                !found_invalid ==> find_invalid(set, 0) == find_invalid(set, j as int),
                found_invalid ==> find_invalid(set, 0) == Some(victim as int),
                lines@[set_index as int]@ == set,
                set_index < lines@.len(),
                lines_view(lines@) == v.lines,
            decreases ways - j,
        {
            if !found_invalid && !lines[set_index][j].valid {
                victim = j;
                found_invalid = true;
            }
            j = j + 1;
        }
        if !found_invalid {
            let mut best: usize = 0;
            let mut k: usize = 1;
            while k < ways
                invariant
                    ways == set.len(),
                    ways > 0,
                    1 <= k <= ways,
                    best < ways,
                    least_recent(set, 0, 1) == least_recent(set, best as int, k as int),
                    lines@[set_index as int]@ == set,
                    set_index < lines@.len(),
                    lines_view(lines@) == v.lines,
                decreases ways - k,
            {
                if lines[set_index][k].last_used < lines[set_index][best].last_used {
                    best = k;
                }
                k = k + 1;
            }
            victim = best;
        }
        proof {
            lemma_victim_in_range(set);
            assert(victim == victim_of(set));
        }
        lines[set_index][victim] = CacheLine { tag, last_used: clock, valid: true };
        proof {
            assert(lines_view(lines@) =~= v.lines.update(
                set_index as int,
                set.update(victim as int, CacheLine { tag, last_used: clock, valid: true }),
            ));
            assert(find_tag(set, tag, 0) is None);
        }
        *self = SetAssociativeCache {
            config,
            lines,
            clock,
            hits,
            misses: misses.saturating_add(1),
        };
        false
    }

    /// The hit and miss counters.
    pub fn stats(&self) -> (stats: CacheStats)
        requires
            self@.hits + self@.misses <= u64::MAX,
        ensures
            stats == stats_spec(self@),
    {
        CacheStats { accesses: self.hits + self.misses, hits: self.hits, misses: self.misses }
    }

    /// Invalidates every line and clears the counters, keeping the configured shape.
    pub fn reset(&mut self)
        ensures
            final(self)@ == (CacheView {
                lines: empty_lines(old(self)@.config.sets as nat, old(self)@.config.ways as nat),
                clock: 0,
                hits: 0,
                misses: 0,
                ..old(self)@
            }),
            view_well_formed(final(self)@),
    {
        proof {
            use_type_invariant(&*self);
        }
        self.lines = empty_storage(self.config.sets, self.config.ways);
        self.clock = 0;
        self.hits = 0;
        self.misses = 0;
    }
}

/// `sets` sets of `ways` empty lines.
fn empty_storage(sets: usize, ways: usize) -> (lines: Vec<Vec<CacheLine>>)
    ensures
        lines_view(lines@) == empty_lines(sets as nat, ways as nat),
{
    let mut lines: Vec<Vec<CacheLine>> = Vec::new();
    let mut i: usize = 0;
    while i < sets
        invariant
            i <= sets,
            lines@.len() == i,
            lines_view(lines@) =~= empty_lines(i as nat, ways as nat),
        decreases sets - i,
    {
        let mut set: Vec<CacheLine> = Vec::new();
        let mut j: usize = 0;
        while j < ways
            invariant
                j <= ways,
                set@ =~= Seq::new(j as nat, |k: int| empty_line()),
            decreases ways - j,
        {
            set.push(CacheLine { tag: 0, last_used: 0, valid: false });
            j = j + 1;
        }
        let ghost prev = lines@;
        lines.push(set);
        proof {
            assert forall|k: int| 0 <= k < i + 1 implies lines_view(lines@)[k] =~= empty_lines(
                (i + 1) as nat,
                ways as nat,
            )[k] by {
                if k < i {
                    assert(lines@[k] == prev[k]);
                    assert(lines_view(prev)[k] == empty_lines(i as nat, ways as nat)[k]);
                }
            }
        }
        i = i + 1;
    }
    lines
}

/// A copy of every set.
fn copy_storage(lines: &Vec<Vec<CacheLine>>) -> (copy: Vec<Vec<CacheLine>>)
    ensures
        lines_view(copy@) == lines_view(lines@),
{
    let mut copy: Vec<Vec<CacheLine>> = Vec::new();
    let n = lines.len();
    let mut i: usize = 0;
    while i < n
        invariant
            n == lines@.len(),
            i <= n,
            copy@.len() == i,
            lines_view(copy@) =~= lines_view(lines@).take(i as int),
        decreases n - i,
    {
        let ways = lines[i].len();
        let mut set: Vec<CacheLine> = Vec::new();
        let mut j: usize = 0;
        while j < ways
            invariant
                ways == lines@[i as int]@.len(),
                i < n,
                n == lines@.len(),
                j <= ways,
                set@ =~= lines@[i as int]@.take(j as int),
                copy@.len() == i,
                lines_view(copy@) =~= lines_view(lines@).take(i as int),
            decreases ways - j,
        {
            set.push(lines[i][j]);
            j = j + 1;
        }
        assert(set@ =~= lines@[i as int]@);
        let ghost prev = copy@;
        copy.push(set);
        proof {
            assert forall|k: int| 0 <= k < i + 1 implies lines_view(copy@)[k] == lines_view(
                lines@,
            ).take(i + 1)[k] by {
                if k < i {
                    assert(copy@[k] == prev[k]);
                    assert(lines_view(prev)[k] == lines_view(lines@).take(i as int)[k]);
                }
            }
            assert(lines_view(copy@) =~= lines_view(lines@).take(i + 1));
        }
        i = i + 1;
    }
    assert(lines_view(lines@).take(n as int) =~= lines_view(lines@));
    copy
}

impl Clone for SetAssociativeCache {
    /// An identical, independent cache.
    fn clone(&self) -> (copy: SetAssociativeCache)
        ensures
            copy@ == self@,
    {
        proof {
            use_type_invariant(self);
        }
        SetAssociativeCache {
            config: self.config,
            lines: copy_storage(&self.lines),
            clock: self.clock,
            hits: self.hits,
            misses: self.misses,
        }
    }
}

impl SetAssociativeCache {
    /// Validates dimensions and creates an empty cache.
    pub fn new(config: CacheConfig) -> (result: Result<SetAssociativeCache, CacheError>)
        ensures
            match new_spec(config) {
                Ok(v) => result matches Ok(cache) && cache@ == v && view_well_formed(cache@),
                Err(e) => result == Err::<SetAssociativeCache, CacheError>(e),
            },
    {
        if config.sets == 0 {
            return Err(CacheError::ZeroSets);
        }
        if config.ways == 0 {
            return Err(CacheError::ZeroWays);
        }
        if !is_power_of_two_exec(config.line_bytes) {
            return Err(CacheError::InvalidLineSize);
        }
        let lines = empty_storage(config.sets, config.ways);
        let cache = SetAssociativeCache { config, lines, clock: 0, hits: 0, misses: 0 };
        Ok(cache)
    }
}

} // verus!
