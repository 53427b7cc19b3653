//! The simulation engine: replays an address trace against a cache and
//! records every line's occupancy history and the hit, miss and eviction
//! counts.
use crate::geometry::{CacheDesc, Strategy};
use vstd::prelude::*;

verus! {

/// One occupancy record of a cache line.
#[derive(Clone, Copy, Debug, PartialEq, Eq, Structural)]
pub struct CacheEntry {
    /// Tag of the address that was loaded.
    pub tag: u64,
    /// Step index of the most recent access.
    pub last_used: u64,
    /// Number of accesses since insertion, the insertion included.
    pub count_used: u64,
    /// Step index at which the entry was inserted.
    pub entered: u64,
}

impl CacheEntry {
    /// Tag of the address that was loaded.
    pub fn tag(&self) -> (r: u64)
        ensures
            r == self.tag,
    {
        self.tag
    }

    /// Step index at which the entry was inserted.
    pub fn entered(&self) -> (r: u64)
        ensures
            r == self.entered,
    {
        self.entered
    }

    /// Step index of the most recent access.
    pub fn last_used(&self) -> (r: u64)
        ensures
            r == self.last_used,
    {
        self.last_used
    }

    /// Number of accesses since insertion, the insertion included.
    pub fn count_used(&self) -> (r: u64)
        ensures
            r == self.count_used,
    {
        self.count_used
    }
}

/// Counters of one simulation run.
#[derive(Clone, Copy, Debug, PartialEq, Eq, Structural)]
pub struct CacheStats {
    pub hits: u64,
    pub misses: u64,
    pub evictions: u64,
}

impl CacheStats {
    /// Accesses whose tag was present in its set.
    pub fn hits(&self) -> (r: u64)
        ensures
            r == self.hits,
    {
        self.hits
    }

    /// Accesses whose tag was absent from its set.
    pub fn misses(&self) -> (r: u64)
        ensures
            r == self.misses,
    {
        self.misses
    }

    /// Misses that replaced an occupied line.
    pub fn evictions(&self) -> (r: u64)
        ensures
            r == self.evictions,
    {
        self.evictions
    }
}

/// The least `i` in `from .. n` with `p(i)`, or `n` where there is none.
pub open spec fn first_index(from: int, n: int, p: spec_fn(int) -> bool) -> int
    decreases n - from,
{
    if from >= n {
        n
    } else if p(from) {
        from
    } else {
        first_index(from + 1, n, p)
    }
}

/// `first_index` is the least index that satisfies `p`.
pub proof fn lemma_first_index_is(from: int, n: int, p: spec_fn(int) -> bool, i: int)
    requires
        from <= i <= n,
        forall|k: int| from <= k < i ==> !#[trigger] p(k),
        i < n ==> p(i),
    ensures
        first_index(from, n, p) == i,
    decreases i - from,
{
    if from < i {
        lemma_first_index_is(from + 1, n, p, i);
    }
}

/// What `first_index` returns: an index in `from ..= n`, satisfying `p`
/// unless it is `n`, with no index before it satisfying `p`.
pub proof fn lemma_first_index_props(from: int, n: int, p: spec_fn(int) -> bool)
    requires
        from <= n,
    ensures
        from <= first_index(from, n, p) <= n,
        first_index(from, n, p) < n ==> p(first_index(from, n, p)),
        forall|k: int| from <= k < first_index(from, n, p) ==> !#[trigger] p(k),
    decreases n - from,
{
    if from < n && !p(from) {
        lemma_first_index_props(from + 1, n, p);
    }
}

/// The line table as plain sequences.
pub open spec fn lines_view(v: Seq<Vec<CacheEntry>>) -> Seq<Seq<CacheEntry>> {
    v.map_values(|l: Vec<CacheEntry>| l@)
}

/// The line's current occupant holds `tag`.
pub open spec fn holds_tag(line: Seq<CacheEntry>, tag: nat) -> bool {
    line.len() > 0 && line.last().tag == tag
}

/// Way `w` of the set starting at `base` holds `tag`.
pub open spec fn hit_pred(lines: Seq<Seq<CacheEntry>>, base: int, tag: nat) -> spec_fn(int) -> bool {
    |w: int| holds_tag(lines[base + w], tag)
}

/// Way `w` of the set starting at `base` has never been filled.
pub open spec fn empty_pred(lines: Seq<Seq<CacheEntry>>, base: int) -> spec_fn(int) -> bool {
    |w: int| lines[base + w].len() == 0
}

/// The usage measure a strategy evicts by, for the occupant of line `k`:
/// `count_used` under `LFU`, `last_used` otherwise.
pub open spec fn usage_key(strat: Strategy, lines: Seq<Seq<CacheEntry>>) -> spec_fn(int) -> int {
    |k: int|
        if strat == Strategy::LFU {
            lines[k].last().count_used as int
        } else {
            lines[k].last().last_used as int
        }
}

/// Way `w` of the set of `assoc` lines at `base` has the least `key` of its set.
pub open spec fn least_key_pred(key: spec_fn(int) -> int, base: int, assoc: int) -> spec_fn(
    int,
) -> bool {
    |w: int| forall|k: int| base <= k < base + assoc ==> key(base + w) <= #[trigger] key(k)
}

/// Some way of a set of at least one line has the least key.
pub proof fn lemma_least_key_exists(key: spec_fn(int) -> int, base: int, assoc: int)
    requires
        assoc > 0,
    ensures
        first_index(0, assoc, least_key_pred(key, base, assoc)) < assoc,
{
    lemma_least_key_prefix(key, base, assoc);
    let w = choose|w: int| 0 <= w < assoc && #[trigger] least_key_pred(key, base, assoc)(w);
    lemma_first_index_props(0, assoc, least_key_pred(key, base, assoc));
}

proof fn lemma_least_key_prefix(key: spec_fn(int) -> int, base: int, m: int)
    requires
        m > 0,
    ensures
        exists|w: int| 0 <= w < m && #[trigger] least_key_pred(key, base, m)(w),
    decreases m,
{
    if m == 1 {
        assert(least_key_pred(key, base, m)(0));
    } else {
        lemma_least_key_prefix(key, base, m - 1);
        let w = choose|w: int| 0 <= w < m - 1 && #[trigger] least_key_pred(key, base, m - 1)(w);
        if key(base + w) <= key(base + m - 1) {
            assert(least_key_pred(key, base, m)(w));
        } else {
            assert(least_key_pred(key, base, m)(m - 1));
        }
    }
}

/// The first way of the set at `base` that holds `tag`; `assoc` on a miss.
pub open spec fn hit_way(lines: Seq<Seq<CacheEntry>>, base: int, assoc: int, tag: nat) -> int {
    first_index(0, assoc, hit_pred(lines, base, tag))
}

/// The first way of the set at `base` that was never filled; `assoc` if none.
pub open spec fn free_way(lines: Seq<Seq<CacheEntry>>, base: int, assoc: int) -> int {
    first_index(0, assoc, empty_pred(lines, base))
}

/// The way that a miss in the set at `base` fills: way 0 under `First`;
/// otherwise the first free way, or where there is none the first way
/// whose occupant is least recently (`LRU`) or least often (`LFU`) used.
pub open spec fn victim_way(strat: Strategy, lines: Seq<Seq<CacheEntry>>, base: int, assoc: int) -> int {
    let free = free_way(lines, base, assoc);
    match strat {
        Strategy::First => 0,
        _ => if free < assoc {
            free
        } else {
            first_index(0, assoc, least_key_pred(usage_key(strat, lines), base, assoc))
        },
    }
}

/// First line of the set that `addr` maps to.
pub open spec fn set_base(d: CacheDesc, addr: u64) -> int {
    d.set_of(addr) * d.assoc
}

/// The access to `addr` finds its tag in its set.
pub open spec fn is_hit(d: CacheDesc, lines: Seq<Seq<CacheEntry>>, addr: u64) -> bool {
    hit_way(lines, set_base(d, addr), d.assoc as int, d.tag_of(addr)) < d.assoc
}

/// The line whose occupant a hit on `addr` uses.
pub open spec fn hit_line(d: CacheDesc, lines: Seq<Seq<CacheEntry>>, addr: u64) -> int {
    set_base(d, addr) + hit_way(lines, set_base(d, addr), d.assoc as int, d.tag_of(addr))
}

/// The line that a miss on `addr` fills.
pub open spec fn target_line(d: CacheDesc, lines: Seq<Seq<CacheEntry>>, addr: u64) -> int {
    set_base(d, addr) + victim_way(d.strat, lines, set_base(d, addr), d.assoc as int)
}

/// The entry that a miss on `addr` at step `i` inserts.
pub open spec fn fresh_entry(d: CacheDesc, addr: u64, i: int) -> CacheEntry {
    CacheEntry { tag: d.tag_of(addr) as u64, last_used: i as u64, count_used: 1, entered: i as u64 }
}

/// The line table and counters after the access to `addr` at step `i`. A
/// hit marks the occupant used at step `i`, once more; a miss appends a
/// fresh entry to the line it fills, an eviction where that line was occupied.
pub open spec fn access(
    d: CacheDesc,
    lines: Seq<Seq<CacheEntry>>,
    stats: CacheStats,
    i: int,
    addr: u64,
) -> (Seq<Seq<CacheEntry>>, CacheStats) {
    if is_hit(d, lines, addr) {
        let k = hit_line(d, lines, addr);
        let e = lines[k].last();
        let used = CacheEntry {
            tag: e.tag,
            last_used: i as u64,
            count_used: (e.count_used + 1) as u64,
            entered: e.entered,
        };
        (
            lines.update(k, lines[k].drop_last().push(used)),
            CacheStats { hits: (stats.hits + 1) as u64, misses: stats.misses, evictions: stats.evictions },
        )
    } else {
        let k = target_line(d, lines, addr);
        let evicted: int = if lines[k].len() > 0 {
            1
        } else {
            0
        };
        (
            lines.update(k, lines[k].push(fresh_entry(d, addr, i))),
            CacheStats {
                hits: stats.hits,
                misses: (stats.misses + 1) as u64,
                evictions: (stats.evictions + evicted) as u64,
            },
        )
    }
}

/// `n_blocks` lines that were never filled.
pub open spec fn empty_lines(d: CacheDesc) -> Seq<Seq<CacheEntry>> {
    Seq::new(d.n_blocks as nat, |k: int| Seq::<CacheEntry>::empty())
}

/// The line table and counters after replaying `addrs` in order, the
/// address at position `i` being accessed at step `i`.
pub open spec fn run(d: CacheDesc, addrs: Seq<u64>) -> (Seq<Seq<CacheEntry>>, CacheStats)
    decreases addrs.len(),
{
    if addrs.len() == 0 {
        (empty_lines(d), CacheStats { hits: 0, misses: 0, evictions: 0 })
    } else {
        let prev = run(d, addrs.drop_last());
        access(d, prev.0, prev.1, addrs.len() - 1, addrs.last())
    }
}

} // verus!

verus! {

/// The set of `addr` lies inside the line table.
pub proof fn lemma_set_in_table(d: CacheDesc, addr: u64)
    requires
        d.wf(),
    ensures
        d.set_of(addr) < d.spec_n_sets(),
        0 <= set_base(d, addr),
        set_base(d, addr) + d.assoc <= d.n_blocks,
{
    d.lemma_sets();
    vstd::arithmetic::power2::lemma_pow2_pos(d.spec_idx_bits());
    crate::geometry::lemma_log2_floor_bounds(d.spec_n_sets());
    let s = d.set_of(addr) as int;
    let n = d.spec_n_sets() as int;
    let a = d.assoc as int;
    assert(s < n);
    assert(0 <= s * a && s * a + a <= n * a) by (nonlinear_arith)
        requires
            0 <= s < n,
            a > 0,
    ;
}

/// The way a miss fills is a way of the set.
pub proof fn lemma_victim_in_set(strat: Strategy, lines: Seq<Seq<CacheEntry>>, base: int, assoc: int)
    requires
        assoc > 0,
    ensures
        0 <= victim_way(strat, lines, base, assoc) < assoc,
{
    lemma_first_index_props(0, assoc, empty_pred(lines, base));
    lemma_least_key_exists(usage_key(strat, lines), base, assoc);
    lemma_first_index_props(0, assoc, least_key_pred(usage_key(strat, lines), base, assoc));
}

/// Facts of the state after `steps` accesses that keep the counters from overflowing.
pub open spec fn state_bounds(
    d: CacheDesc,
    lines: Seq<Seq<CacheEntry>>,
    stats: CacheStats,
    steps: int,
) -> bool {
    &&& lines.len() == d.n_blocks
    &&& stats.hits + stats.misses == steps
    &&& stats.evictions <= stats.misses
    &&& forall|k: int, j: int|
        0 <= k < lines.len() && 0 <= j < lines[k].len() ==> #[trigger] lines[k][j].count_used
            <= steps
}

/// One access keeps the bounds, with one more step.
pub proof fn lemma_access_bounds(
    d: CacheDesc,
    lines: Seq<Seq<CacheEntry>>,
    stats: CacheStats,
    i: int,
    addr: u64,
)
    requires
        d.wf(),
        0 <= i < u64::MAX,
        state_bounds(d, lines, stats, i),
    ensures
        state_bounds(d, access(d, lines, stats, i, addr).0, access(d, lines, stats, i, addr).1, i + 1),
{
    let base = set_base(d, addr);
    let a = d.assoc as int;
    let tag = d.tag_of(addr);
    lemma_set_in_table(d, addr);
    lemma_first_index_props(0, a, hit_pred(lines, base, tag));
    lemma_victim_in_set(d.strat, lines, base, a);
    let r = access(d, lines, stats, i, addr);
    let h = hit_way(lines, base, a, tag);
    if h < a {
        let k = base + h;
        assert forall|k2: int, j: int|
            0 <= k2 < r.0.len() && 0 <= j < r.0[k2].len() implies #[trigger] r.0[k2][j].count_used
            <= i + 1 by {
            if k2 == k && j < lines[k].len() - 1 {
                assert(r.0[k2][j] == lines[k][j]);
            }
        }
    } else {
        let k = base + victim_way(d.strat, lines, base, a);
        assert forall|k2: int, j: int|
            0 <= k2 < r.0.len() && 0 <= j < r.0[k2].len() implies #[trigger] r.0[k2][j].count_used
            <= i + 1 by {
            if k2 == k && j < lines[k].len() {
                assert(r.0[k2][j] == lines[k][j]);
            }
        }
    }
}

/// Every state that a replay reaches satisfies the bounds.
pub proof fn lemma_run_bounds(d: CacheDesc, addrs: Seq<u64>)
    requires
        d.wf(),
        addrs.len() <= u64::MAX,
    ensures
        state_bounds(d, run(d, addrs).0, run(d, addrs).1, addrs.len() as int),
    decreases addrs.len(),
{
    if addrs.len() > 0 {
        let prev = run(d, addrs.drop_last());
        lemma_run_bounds(d, addrs.drop_last());
        lemma_access_bounds(d, prev.0, prev.1, addrs.len() - 1, addrs.last());
    }
}

} // verus!

verus! {

/// The first way of the set at `base` whose occupant holds `tag`, or `assoc`.
fn find_hit(lines: &Vec<Vec<CacheEntry>>, base: usize, assoc: usize, tag: u64) -> (w: usize)
    requires
        base + assoc <= lines.len(),
    ensures
        w == hit_way(lines_view(lines@), base as int, assoc as int, tag as nat),
{
    let ghost p = hit_pred(lines_view(lines@), base as int, tag as nat);
    let mut w: usize = 0;
    while w < assoc
        invariant
            w <= assoc,
            base + assoc <= lines.len(),
            p == hit_pred(lines_view(lines@), base as int, tag as nat),
            forall|v: int| 0 <= v < w ==> !#[trigger] p(v),
        decreases assoc - w,
    {
        let line = &lines[base + w];
        if line.len() > 0 && line[line.len() - 1].tag == tag {
            proof {
                lemma_first_index_is(0, assoc as int, p, w as int);
            }
            return w;
        }
        w = w + 1;
    }
    proof {
        lemma_first_index_is(0, assoc as int, p, assoc as int);
    }
    assoc
}

/// The first way of the set at `base` that was never filled, or `assoc`.
fn find_free(lines: &Vec<Vec<CacheEntry>>, base: usize, assoc: usize) -> (w: usize)
    requires
        base + assoc <= lines.len(),
    ensures
        w == free_way(lines_view(lines@), base as int, assoc as int),
{
    let ghost p = empty_pred(lines_view(lines@), base as int);
    let mut w: usize = 0;
    while w < assoc
        invariant
            w <= assoc,
            base + assoc <= lines.len(),
            p == empty_pred(lines_view(lines@), base as int),
            forall|v: int| 0 <= v < w ==> !#[trigger] p(v),
        decreases assoc - w,
    {
        if lines[base + w].len() == 0 {
            proof {
                lemma_first_index_is(0, assoc as int, p, w as int);
            }
            return w;
        }
        w = w + 1;
    }
    proof {
        lemma_first_index_is(0, assoc as int, p, assoc as int);
    }
    assoc
}

/// The usage measure `strat` evicts by, of one occupant.
fn usage_of(strat: Strategy, e: &CacheEntry) -> (r: u64)
    ensures
        r == (if strat == Strategy::LFU {
            e.count_used
        } else {
            e.last_used
        }),
{
    match strat {
        Strategy::LFU => e.count_used,
        _ => e.last_used,
    }
}

/// In a set whose lines are all occupied, the first way whose occupant has
/// the least usage measure of `strat`.
fn find_least(lines: &Vec<Vec<CacheEntry>>, base: usize, assoc: usize, strat: Strategy) -> (w:
    usize)
    requires
        0 < assoc,
        base + assoc <= lines.len(),
        forall|k: int| base <= k < base + assoc ==> #[trigger] lines@[k]@.len() > 0,
    ensures
        w == first_index(
            0,
            assoc as int,
            least_key_pred(usage_key(strat, lines_view(lines@)), base as int, assoc as int),
        ),
{
    let ghost key = usage_key(strat, lines_view(lines@));
    let ghost p = least_key_pred(key, base as int, assoc as int);
    let mut best: usize = 0;
    let mut best_key: u64 = usage_of(strat, &lines[base][lines[base].len() - 1]);
    let mut j: usize = 1;
    while j < assoc
        invariant
            0 <= best < j <= assoc,
            base + assoc <= lines.len(),
            forall|k: int| base <= k < base + assoc ==> #[trigger] lines@[k]@.len() > 0,
            key == usage_key(strat, lines_view(lines@)),
            best_key == key(base + best),
            forall|k: int| base <= k < base + j ==> key(base + best) <= #[trigger] key(k),
            forall|v: int| 0 <= v < best ==> key(base + best) < #[trigger] key(base + v),
        decreases assoc - j,
    {
        let line = &lines[base + j];
        let k = usage_of(strat, &line[line.len() - 1]);
        if k < best_key {
            best = j;
            best_key = k;
        }
        j = j + 1;
    }
    proof {
        assert(p(best as int));
        assert forall|v: int| 0 <= v < best implies !#[trigger] p(v) by {
            assert(key(base + best) < key(base + v));
        }
        lemma_first_index_is(0, assoc as int, p, best as int);
    }
    best
}

/// Replays `addrs` in order against an initially empty cache described by
/// `cache`. Returns, for each of the `n_blocks` lines, its full history of
/// occupants (the last one being the current occupant), and the hit, miss
/// and eviction counts.
pub fn simulate(cache: &CacheDesc, addrs: &Vec<u64>) -> (r: (Vec<Vec<CacheEntry>>, CacheStats))
    requires
        cache.wf(),
    ensures
        lines_view(r.0@) == run(*cache, addrs@).0,
        r.1 == run(*cache, addrs@).1,
{
    let n = cache.n_blocks as usize;
    let assoc = cache.assoc as usize;
    let mut result: Vec<Vec<CacheEntry>> = Vec::new();
    while result.len() < n
        invariant
            result.len() <= n,
            n == cache.n_blocks,
            forall|k: int| 0 <= k < result.len() ==> #[trigger] result@[k]@ == Seq::<CacheEntry>::empty(),
        decreases n - result.len(),
    {
        result.push(Vec::new());
    }
    assert(lines_view(result@) =~= empty_lines(*cache));
    let mut stats = CacheStats { hits: 0, misses: 0, evictions: 0 };
    let mut i: usize = 0;
    assert(addrs@.take(0) =~= Seq::<u64>::empty());
    while i < addrs.len()
        invariant
            cache.wf(),
            i <= addrs.len(),
            assoc == cache.assoc,
            lines_view(result@) == run(*cache, addrs@.take(i as int)).0,
            stats == run(*cache, addrs@.take(i as int)).1,
        decreases addrs.len() - i,
    {
        let ghost before = lines_view(result@);
        proof {
            lemma_run_bounds(*cache, addrs@.take(i as int));
            assert(addrs@.take(i + 1).drop_last() =~= addrs@.take(i as int));
        }
        let addr = addrs[i];
        let tag = cache.addr_tag(addr);
        let set = cache.set_index(addr);
        proof {
            lemma_set_in_table(*cache, addr);
            lemma_first_index_props(0, assoc as int, hit_pred(before, set_base(*cache, addr), tag as nat));
            lemma_victim_in_set(cache.strat, before, set_base(*cache, addr), assoc as int);
        }
        let base = (set * cache.assoc) as usize;
        let h = find_hit(&result, base, assoc, tag);
        if h < assoc {
            let k = base + h;
            let last = result[k].len() - 1;
            let e = result[k][last];
            assert(e.count_used <= i) by {
                assert(before[k as int][last as int] == e);
            }
            let used = CacheEntry {
                tag: e.tag,
                last_used: i as u64,
                count_used: e.count_used + 1,
                entered: e.entered,
            };
            result[k].set(last, used);
            stats.hits = stats.hits + 1;
            proof {
                assert(result@[k as int]@ =~= before[k as int].drop_last().push(used));
                assert(lines_view(result@) =~= before.update(
                    k as int,
                    before[k as int].drop_last().push(used),
                ));
            }
        } else {
            let w = match cache.strat {
                Strategy::First => 0,
                _ => {
                    let f = find_free(&result, base, assoc);
                    if f < assoc {
                        f
                    } else {
                        proof {
                            let p = empty_pred(before, base as int);
                            lemma_first_index_props(0, assoc as int, p);
                            assert forall|k: int| base <= k < base + assoc implies #[trigger] result@[k]@.len() > 0 by {
                                assert(!p(k - base));
                            }
                        }
                        find_least(&result, base, assoc, cache.strat)
                    }
                },
            };
            let k = base + w;
            let fresh = CacheEntry { tag, last_used: i as u64, count_used: 1, entered: i as u64 };
            if result[k].len() > 0 {
                stats.evictions = stats.evictions + 1;
            }
            stats.misses = stats.misses + 1;
            result[k].push(fresh);
            proof {
                assert(lines_view(result@) =~= before.update(k as int, before[k as int].push(fresh)));
            }
        }
        i = i + 1;
    }
    assert(addrs@.take(addrs.len() as int) =~= addrs@);
    (result, stats)
}

} // verus!
