//! Properties of the simulation that hold of every replay.
use crate::engine::{
    access, fresh_entry, free_way, hit_line, is_hit, lemma_first_index_props, lemma_run_bounds,
    lemma_set_in_table, lemma_victim_in_set, run, set_base, target_line, victim_way,
    empty_pred, hit_pred, least_key_pred, usage_key, CacheEntry, CacheStats,
};
use crate::geometry::{CacheDesc, Strategy};
use vstd::prelude::*;

verus! {

/// Replaying `addrs` and then `addr` is the replay of `addrs` followed by
/// the access to `addr` at step `addrs.len()`.
pub proof fn lemma_run_push(d: CacheDesc, addrs: Seq<u64>, addr: u64)
    ensures
        run(d, addrs.push(addr)) == access(
            d,
            run(d, addrs).0,
            run(d, addrs).1,
            addrs.len() as int,
            addr,
        ),
{
    assert(addrs.push(addr).drop_last() =~= addrs);
}

/// Which line an access changes, and how: a hit replaces the occupant of
/// its line by the same entry, used once more at step `i`; a miss appends
/// the fresh entry to the line it fills. No other line changes.
pub proof fn lemma_access_shape(
    d: CacheDesc,
    lines: Seq<Seq<CacheEntry>>,
    stats: CacheStats,
    i: int,
    addr: u64,
)
    requires
        d.wf(),
        lines.len() == d.n_blocks,
    ensures
        ({
            let r = access(d, lines, stats, i, addr);
            let base = set_base(d, addr);
            &&& r.0.len() == lines.len()
            &&& 0 <= base
            &&& base + d.assoc <= d.n_blocks
            &&& forall|k: int| 0 <= k < lines.len() ==> lines[k].len() <= (#[trigger] r.0[k]).len()
            &&& forall|k: int|
                0 <= k < lines.len() && (#[trigger] r.0[k]).len() == 0 ==> r.0[k] == lines[k]
            &&& is_hit(d, lines, addr) ==> {
                let k = hit_line(d, lines, addr);
                &&& base <= k < base + d.assoc
                &&& lines[k].len() > 0
                &&& lines[k].last().tag == d.tag_of(addr)
                &&& r.0 == lines.update(
                    k,
                    lines[k].drop_last().push(
                        CacheEntry {
                            tag: lines[k].last().tag,
                            last_used: i as u64,
                            count_used: (lines[k].last().count_used + 1) as u64,
                            entered: lines[k].last().entered,
                        },
                    ),
                )
            }
            &&& !is_hit(d, lines, addr) ==> {
                let k = target_line(d, lines, addr);
                &&& base <= k < base + d.assoc
                &&& r.0 == lines.update(k, lines[k].push(fresh_entry(d, addr, i)))
            }
        }),
{
    let base = set_base(d, addr);
    lemma_set_in_table(d, addr);
    lemma_first_index_props(0, d.assoc as int, hit_pred(lines, base, d.tag_of(addr)));
    lemma_victim_in_set(d.strat, lines, base, d.assoc as int);
    let r = access(d, lines, stats, i, addr);
    let kc = if is_hit(d, lines, addr) {
        hit_line(d, lines, addr)
    } else {
        target_line(d, lines, addr)
    };
    assert forall|k: int| 0 <= k < lines.len() implies lines[k].len() <= (#[trigger] r.0[k]).len()
        && (r.0[k].len() == 0 ==> r.0[k] == lines[k]) by {
        if k != kc {
            assert(r.0[k] == lines[k]);
        }
    }
}

/// Every access is counted once, as a hit or as a miss.
pub proof fn lemma_every_access_counted(d: CacheDesc, addrs: Seq<u64>)
    requires
        d.wf(),
        addrs.len() <= u64::MAX,
    ensures
        run(d, addrs).1.hits + run(d, addrs).1.misses == addrs.len(),
{
    lemma_run_bounds(d, addrs);
}

/// Only misses evict: there are never more evictions than misses.
pub proof fn lemma_evictions_at_most_misses(d: CacheDesc, addrs: Seq<u64>)
    requires
        d.wf(),
        addrs.len() <= u64::MAX,
    ensures
        run(d, addrs).1.evictions <= run(d, addrs).1.misses,
{
    lemma_run_bounds(d, addrs);
}

/// Set `s` has a line that was never filled.
pub open spec fn set_has_free_line(d: CacheDesc, lines: Seq<Seq<CacheEntry>>, s: int) -> bool {
    exists|k: int| s * d.assoc <= k < s * d.assoc + d.assoc && (#[trigger] lines[k]).len() == 0
}

/// A replay after which every set still has a line that was never filled
/// evicted nothing, under `LRU` and `LFU`, and under `First` where every
/// set is one line. (Under `First` with larger sets, way 0 is refilled
/// while the other ways stay empty.)
pub proof fn lemma_no_evictions_while_sets_have_room(d: CacheDesc, addrs: Seq<u64>)
    requires
        d.wf(),
        addrs.len() <= u64::MAX,
        d.strat != Strategy::First || d.assoc == 1,
        forall|s: int| 0 <= s < d.spec_n_sets() ==> #[trigger] set_has_free_line(d, run(d, addrs).0, s),
    ensures
        run(d, addrs).1.evictions == 0,
    decreases addrs.len(),
{
    if addrs.len() > 0 {
        let prev = addrs.drop_last();
        let addr = addrs.last();
        let i = prev.len() as int;
        let before = run(d, prev).0;
        let after = run(d, addrs).0;
        lemma_run_bounds(d, prev);
        lemma_access_shape(d, before, run(d, prev).1, i, addr);
        assert(prev.push(addr) =~= addrs);
        lemma_run_push(d, prev, addr);
        assert forall|s: int| 0 <= s < d.spec_n_sets() implies #[trigger] set_has_free_line(
            d,
            before,
            s,
        ) by {
            assert(set_has_free_line(d, after, s));
            let k = choose|k: int|
                s * d.assoc <= k < s * d.assoc + d.assoc && (#[trigger] after[k]).len() == 0;
            d.lemma_sets();
            assert(s * d.assoc + d.assoc <= d.n_blocks) by (nonlinear_arith)
                requires
                    0 <= s < d.spec_n_sets(),
                    d.spec_n_sets() * d.assoc == d.n_blocks,
            ;
            assert(before[k].len() == 0);
        }
        lemma_no_evictions_while_sets_have_room(d, prev);
        if !is_hit(d, before, addr) {
            let base = set_base(d, addr);
            let s = d.set_of(addr) as int;
            let k = target_line(d, before, addr);
            lemma_set_in_table(d, addr);
            assert(set_has_free_line(d, after, s));
            let k2 = choose|k2: int|
                s * d.assoc <= k2 < s * d.assoc + d.assoc && (#[trigger] after[k2]).len() == 0;
            assert(before[k2].len() == 0);
            if d.strat != Strategy::First {
                let p = empty_pred(before, base);
                lemma_first_index_props(0, d.assoc as int, p);
                assert(p(k2 - base));
                assert(before[k].len() == 0);
            } else {
                assert(k == k2);
            }
        }
    }
}

/// The simulation is a function of the descriptor and the addresses: equal
/// inputs give equal histories and counters.
pub proof fn lemma_replay_deterministic(d1: CacheDesc, a1: Seq<u64>, d2: CacheDesc, a2: Seq<u64>)
    requires
        d1 == d2,
        a1 == a2,
    ensures
        run(d1, a1) == run(d2, a2),
{
}

/// A hit marks its entry used at the current step and counts it once more,
/// in place: no entry is appended.
pub proof fn lemma_hit_refreshes_entry(d: CacheDesc, addrs: Seq<u64>, addr: u64)
    requires
        d.wf(),
        addrs.len() < u64::MAX,
        is_hit(d, run(d, addrs).0, addr),
    ensures
        ({
            let before = run(d, addrs).0;
            let after = run(d, addrs.push(addr)).0;
            let k = hit_line(d, before, addr);
            &&& after[k].len() == before[k].len()
            &&& after[k].last().last_used == addrs.len()
            &&& after[k].last().count_used == before[k].last().count_used + 1
            &&& after[k].last().tag == before[k].last().tag == d.tag_of(addr)
            &&& run(d, addrs.push(addr)).1.hits == run(d, addrs).1.hits + 1
        }),
{
    lemma_run_bounds(d, addrs);
    lemma_run_push(d, addrs, addr);
    let before = run(d, addrs).0;
    let k = hit_line(d, before, addr);
    lemma_access_shape(d, before, run(d, addrs).1, addrs.len() as int, addr);
    assert(before[k][before[k].len() - 1].count_used <= addrs.len());
}

/// Under `LRU` and `LFU`, a miss in a full set evicts the first line of the
/// set whose occupant has the least usage measure of the strategy.
proof fn lemma_full_set_evicts_least(d: CacheDesc, addrs: Seq<u64>, addr: u64)
    requires
        d.wf(),
        d.strat != Strategy::First,
        addrs.len() < u64::MAX,
        !is_hit(d, run(d, addrs).0, addr),
        forall|k: int|
            set_base(d, addr) <= k < set_base(d, addr) + d.assoc ==> (#[trigger] run(
                d,
                addrs,
            ).0[k]).len() > 0,
    ensures
        ({
            let before = run(d, addrs).0;
            let after = run(d, addrs.push(addr));
            let key = usage_key(d.strat, before);
            let base = set_base(d, addr);
            let k = target_line(d, before, addr);
            &&& base <= k < base + d.assoc
            &&& forall|k2: int| base <= k2 < base + d.assoc ==> key(k) <= #[trigger] key(k2)
            &&& forall|k2: int| base <= k2 < k ==> key(k) < #[trigger] key(k2)
            &&& after.0[k] == before[k].push(fresh_entry(d, addr, addrs.len() as int))
            &&& after.1.evictions == run(d, addrs).1.evictions + 1
        }),
{
    let before = run(d, addrs).0;
    let base = set_base(d, addr);
    let a = d.assoc as int;
    lemma_run_bounds(d, addrs);
    lemma_run_push(d, addrs, addr);
    lemma_access_shape(d, before, run(d, addrs).1, addrs.len() as int, addr);
    let p = empty_pred(before, base);
    lemma_first_index_props(0, a, p);
    if free_way(before, base, a) < a {
        assert(p(free_way(before, base, a)));
        assert(before[base + free_way(before, base, a)].len() > 0);
    }
    let key = usage_key(d.strat, before);
    let q = least_key_pred(key, base, a);
    lemma_victim_in_set(d.strat, before, base, a);
    lemma_first_index_props(0, a, q);
    let w = victim_way(d.strat, before, base, a);
    assert(q(w));
    assert forall|k2: int| base <= k2 < base + w implies key(base + w) < #[trigger] key(k2) by {
        assert(!q(k2 - base));
        if key(k2) <= key(base + w) {
            assert forall|k3: int| base <= k3 < base + a implies key(base + (k2 - base)) <= #[trigger] key(k3) by {
                assert(key(base + w) <= key(k3));
            }
        }
    }
}

/// Under `LRU`, a miss in a full set evicts the first line of the set
/// whose occupant has the least `last_used`.
pub proof fn lemma_lru_evicts_least_recent(d: CacheDesc, addrs: Seq<u64>, addr: u64)
    requires
        d.wf(),
        d.strat == Strategy::LRU,
        addrs.len() < u64::MAX,
        !is_hit(d, run(d, addrs).0, addr),
        forall|k: int|
            set_base(d, addr) <= k < set_base(d, addr) + d.assoc ==> (#[trigger] run(
                d,
                addrs,
            ).0[k]).len() > 0,
    ensures
        ({
            let before = run(d, addrs).0;
            let after = run(d, addrs.push(addr));
            let base = set_base(d, addr);
            let k = target_line(d, before, addr);
            &&& base <= k < base + d.assoc
            &&& forall|k2: int|
                base <= k2 < base + d.assoc ==> before[k].last().last_used <= (#[trigger] before[k2]).last().last_used
            &&& forall|k2: int|
                base <= k2 < k ==> before[k].last().last_used < (#[trigger] before[k2]).last().last_used
            &&& after.0[k] == before[k].push(fresh_entry(d, addr, addrs.len() as int))
            &&& after.1.evictions == run(d, addrs).1.evictions + 1
        }),
{
    let before = run(d, addrs).0;
    let key = usage_key(d.strat, before);
    lemma_full_set_evicts_least(d, addrs, addr);
    let base = set_base(d, addr);
    let k = target_line(d, before, addr);
    assert forall|k2: int| base <= k2 < base + d.assoc implies before[k].last().last_used
        <= (#[trigger] before[k2]).last().last_used by {
        assert(key(k) <= key(k2));
    }
    assert forall|k2: int| base <= k2 < k implies before[k].last().last_used < (
    #[trigger] before[k2]).last().last_used by {
        assert(key(k) < key(k2));
    }
}

/// Under `LFU`, a miss in a full set evicts the first line of the set
/// whose occupant has the least `count_used`.
pub proof fn lemma_lfu_evicts_least_used(d: CacheDesc, addrs: Seq<u64>, addr: u64)
    requires
        d.wf(),
        d.strat == Strategy::LFU,
        addrs.len() < u64::MAX,
        !is_hit(d, run(d, addrs).0, addr),
        forall|k: int|
            set_base(d, addr) <= k < set_base(d, addr) + d.assoc ==> (#[trigger] run(
                d,
                addrs,
            ).0[k]).len() > 0,
    ensures
        ({
            let before = run(d, addrs).0;
            let after = run(d, addrs.push(addr));
            let base = set_base(d, addr);
            let k = target_line(d, before, addr);
            &&& base <= k < base + d.assoc
            &&& forall|k2: int|
                base <= k2 < base + d.assoc ==> before[k].last().count_used <= (#[trigger] before[k2]).last().count_used
            &&& forall|k2: int|
                base <= k2 < k ==> before[k].last().count_used < (#[trigger] before[k2]).last().count_used
            &&& after.0[k] == before[k].push(fresh_entry(d, addr, addrs.len() as int))
            &&& after.1.evictions == run(d, addrs).1.evictions + 1
        }),
{
    let before = run(d, addrs).0;
    let key = usage_key(d.strat, before);
    lemma_full_set_evicts_least(d, addrs, addr);
    let base = set_base(d, addr);
    let k = target_line(d, before, addr);
    assert forall|k2: int| base <= k2 < base + d.assoc implies before[k].last().count_used
        <= (#[trigger] before[k2]).last().count_used by {
        assert(key(k) <= key(k2));
    }
    assert forall|k2: int| base <= k2 < k implies before[k].last().count_used < (
    #[trigger] before[k2]).last().count_used by {
        assert(key(k) < key(k2));
    }
}

/// An access changes no entry but the one a hit uses, whose `count_used`
/// goes up by one; tags and entry steps never change, and a fresh entry
/// starts at a `count_used` of 1. So over an entry's lifetime `count_used`
/// never decreases, and it grows only on hits to that entry.
pub proof fn lemma_count_used_grows_only_on_hits(d: CacheDesc, addrs: Seq<u64>, addr: u64)
    requires
        d.wf(),
        addrs.len() < u64::MAX,
    ensures
        ({
            let before = run(d, addrs).0;
            let after = run(d, addrs.push(addr)).0;
            let used = is_hit(d, before, addr);
            &&& after.len() == before.len()
            &&& forall|k: int, j: int|
                0 <= k < before.len() && 0 <= j < before[k].len() ==> {
                    &&& j < after[k].len()
                    &&& (#[trigger] after[k][j]).tag == before[k][j].tag
                    &&& after[k][j].entered == before[k][j].entered
                    &&& after[k][j].count_used == before[k][j].count_used + if used && k
                        == hit_line(d, before, addr) && j == before[k].len() - 1 {
                        1int
                    } else {
                        0int
                    }
                }
            &&& forall|k: int, j: int|
                0 <= k < before.len() && before[k].len() <= j < after[k].len() ==> (#[trigger] after[k][j]).count_used
                    == 1
        }),
{
    let before = run(d, addrs).0;
    let after = run(d, addrs.push(addr)).0;
    lemma_run_bounds(d, addrs);
    lemma_run_push(d, addrs, addr);
    lemma_access_shape(d, before, run(d, addrs).1, addrs.len() as int, addr);
    let kc = if is_hit(d, before, addr) {
        hit_line(d, before, addr)
    } else {
        target_line(d, before, addr)
    };
    assert forall|k: int, j: int| 0 <= k < before.len() && 0 <= j < before[k].len() implies {
        &&& j < after[k].len()
        &&& (#[trigger] after[k][j]).tag == before[k][j].tag
        &&& after[k][j].entered == before[k][j].entered
        &&& after[k][j].count_used == before[k][j].count_used + if is_hit(d, before, addr) && k
            == hit_line(d, before, addr) && j == before[k].len() - 1 {
            1int
        } else {
            0int
        }
    } by {
        if k == kc && !(is_hit(d, before, addr) && j == before[k].len() - 1) {
            assert(after[k][j] == before[k][j]);
        }
    }
}

/// In a direct-mapped cache (one line per set) there are as many sets as
/// lines, and a miss appends its fresh entry to the one line of its set.
pub proof fn lemma_direct_mapped(d: CacheDesc, addrs: Seq<u64>, addr: u64)
    requires
        d.wf(),
        d.assoc == 1,
        addrs.len() < u64::MAX,
        !is_hit(d, run(d, addrs).0, addr),
    ensures
        d.spec_n_sets() == d.n_blocks,
        target_line(d, run(d, addrs).0, addr) == d.set_of(addr),
        run(d, addrs.push(addr)).0 == run(d, addrs).0.update(
            d.set_of(addr) as int,
            run(d, addrs).0[d.set_of(addr) as int].push(fresh_entry(d, addr, addrs.len() as int)),
        ),
{
    let before = run(d, addrs).0;
    lemma_run_bounds(d, addrs);
    lemma_run_push(d, addrs, addr);
    lemma_access_shape(d, before, run(d, addrs).1, addrs.len() as int, addr);
    lemma_victim_in_set(d.strat, before, set_base(d, addr), 1);
}

} // verus!
