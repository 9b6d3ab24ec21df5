//! Compaction: merging several tables into one, keeping for each key the
//! entry of the newest table that holds it, and optionally dropping deletes.

use vstd::prelude::*;

use bincode::Options;

use crate::codec::{framed, le_bytes, Entry};
use crate::error::{Error, Result};
use crate::names::{ext_of, file_path, get_file_path, FileKind};
use crate::keys::{compare_keys, key_less, lemma_key_less_irreflexive, lemma_key_less_transitive};
use crate::memtable::{copy_value, items_of, lemma_map_of_index, lemma_map_of_push_sorted, map_of, sorted, Item};

verus! {

/// `m` after storing each item of `s` in turn.
pub open spec fn apply_items(m: Map<Seq<u8>, (Seq<u8>, i64)>, s: Seq<Item>) -> Map<Seq<u8>, (Seq<u8>, i64)>
    decreases s.len(),
{
    if s.len() == 0 {
        m
    } else {
        apply_items(m, s.drop_last()).insert(s.last().0, s.last().1)
    }
}

/// The entries of `srcs`, oldest table first, where a newer table's entry
/// for a key replaces an older one's.
pub open spec fn merged(srcs: Seq<Seq<Item>>) -> Map<Seq<u8>, (Seq<u8>, i64)>
    decreases srcs.len(),
{
    if srcs.len() == 0 {
        Map::empty()
    } else {
        apply_items(merged(srcs.drop_last()), srcs.last())
    }
}

/// What a compaction of `srcs` keeps: the merged entries, without the
/// deletes when `remove_tombstones` holds.
pub open spec fn compacted(srcs: Seq<Seq<Item>>, remove_tombstones: bool) -> Map<Seq<u8>, (Seq<u8>, i64)> {
    Map::new(
        |k: Seq<u8>| merged(srcs).contains_key(k) && !(remove_tombstones && merged(srcs)[k].0.len() == 0),
        |k: Seq<u8>| merged(srcs)[k],
    )
}

/// The tables of `srcs` at positions `order`, in that order.
pub open spec fn select(srcs: Seq<Seq<Item>>, order: Seq<usize>) -> Seq<Seq<Item>> {
    order.map_values(|p: usize| srcs[p as int])
}

/// The views of several tables' entries.
pub open spec fn tables_view(srcs: Seq<Vec<Entry>>) -> Seq<Seq<Item>> {
    srcs.map_values(|v: Vec<Entry>| items_of(v@))
}

/// What a read of `k` gives from a map of entries: the value, or nothing
/// for a delete or a missing key.
pub open spec fn read_as(m: Map<Seq<u8>, (Seq<u8>, i64)>, k: Seq<u8>) -> Option<Seq<u8>> {
    if m.contains_key(k) && m[k].0.len() > 0 {
        Some(m[k].0)
    } else {
        None
    }
}

/// The entry of `k` in the newest of `srcs` (the last) that holds it.
pub open spec fn lookup_newest(srcs: Seq<Seq<Item>>, k: Seq<u8>) -> Option<(Seq<u8>, i64)>
    decreases srcs.len(),
{
    if srcs.len() == 0 {
        None
    } else if map_of(srcs.last()).contains_key(k) {
        Some(map_of(srcs.last())[k])
    } else {
        lookup_newest(srcs.drop_last(), k)
    }
}

/// What a read of `k` gives from tables `srcs`, searched newest first.
pub open spec fn read_newest(srcs: Seq<Seq<Item>>, k: Seq<u8>) -> Option<Seq<u8>> {
    match lookup_newest(srcs, k) {
        Some(v) => if v.0.len() > 0 { Some(v.0) } else { None },
        None => None,
    }
}

proof fn lemma_apply_sorted(m: Map<Seq<u8>, (Seq<u8>, i64)>, s: Seq<Item>)
    requires
        sorted(s),
    ensures
        apply_items(m, s) == m.union_prefer_right(map_of(s)),
    decreases s.len(),
{
    if s.len() == 0 {
        assert(map_of(s) =~= Map::<Seq<u8>, (Seq<u8>, i64)>::empty());
        assert(m.union_prefer_right(map_of(s)) =~= m);
    } else {
        let t = s.drop_last();
        let x = s.last();
        assert(s =~= t.push(x));
        assert(sorted(t)) by {
            assert forall|i: int, j: int| 0 <= i < j < t.len() implies crate::keys::key_less(#[trigger] t[i].0, #[trigger] t[j].0) by {
                assert(t[i] == s[i] && t[j] == s[j]);
            }
        }
        lemma_apply_sorted(m, t);
        lemma_map_of_push_sorted(t, x);
        assert(m.union_prefer_right(map_of(t)).insert(x.0, x.1) =~= m.union_prefer_right(map_of(t).insert(x.0, x.1)));
    }
}

proof fn lemma_merged_newest(srcs: Seq<Seq<Item>>, k: Seq<u8>)
    requires
        forall|i: int| 0 <= i < srcs.len() ==> sorted(#[trigger] srcs[i]),
    ensures
        merged(srcs).contains_key(k) <==> lookup_newest(srcs, k) is Some,
        merged(srcs).contains_key(k) ==> lookup_newest(srcs, k) == Some(merged(srcs)[k]),
    decreases srcs.len(),
{
    if srcs.len() > 0 {
        let rest = srcs.drop_last();
        assert forall|i: int| 0 <= i < rest.len() implies sorted(#[trigger] rest[i]) by {
            assert(rest[i] == srcs[i]);
        }
        lemma_merged_newest(rest, k);
        assert(sorted(srcs[srcs.len() - 1]));
        lemma_apply_sorted(merged(rest), srcs.last());
    }
}

/// Compaction preserves what reads see: for every key, reading the
/// compacted table gives what reading the source tables newest first gave,
/// where a delete reads as absent. Without the removal of deletes, the
/// compacted table even holds the very entry that the newest source held.
pub proof fn law_compaction_preserves_visibility(srcs: Seq<Seq<Item>>, remove_tombstones: bool, k: Seq<u8>)
    requires
        forall|i: int| 0 <= i < srcs.len() ==> sorted(#[trigger] srcs[i]),
    ensures
        read_as(compacted(srcs, remove_tombstones), k) == read_newest(srcs, k),
        !remove_tombstones ==> (compacted(srcs, false).contains_key(k) <==> lookup_newest(srcs, k) is Some),
        !remove_tombstones && compacted(srcs, false).contains_key(k) ==> lookup_newest(srcs, k) == Some(
            compacted(srcs, false)[k],
        ),
{
    lemma_merged_newest(srcs, k);
}

/// Whether some table of `srcs` has, before position `pos[s]`, an entry of
/// key `k`: whether the merge has gone past `k`.
pub open spec fn consumed(srcs: Seq<Seq<Item>>, pos: Seq<usize>, k: Seq<u8>) -> bool {
    exists|s: int, i: int| 0 <= s < srcs.len() && 0 <= i < pos[s] && (#[trigger] srcs[s][i]).0 == k
}

/// Whether every entry the merge has gone past sorts before every entry it
/// has not.
pub open spec fn behind(srcs: Seq<Seq<Item>>, pos: Seq<usize>) -> bool {
    forall|s: int, i: int, t: int, j: int|
        0 <= s < srcs.len() && 0 <= i < pos[s] && 0 <= t < srcs.len() && pos[t] <= j < srcs[t].len() ==> key_less(
            (#[trigger] srcs[s][i]).0,
            (#[trigger] srcs[t][j]).0,
        )
}

/// The number of entries of the first `n` tables that the merge has not
/// gone past.
pub open spec fn remaining(srcs: Seq<Seq<Item>>, pos: Seq<usize>, n: int) -> int
    decreases n,
{
    if n <= 0 {
        0
    } else {
        remaining(srcs, pos, n - 1) + (srcs[n - 1].len() - pos[n - 1])
    }
}

proof fn lemma_remaining_decreases(srcs: Seq<Seq<Item>>, p0: Seq<usize>, p1: Seq<usize>, n: int, b: int)
    requires
        0 <= n <= srcs.len(),
        p0.len() == srcs.len(),
        p1.len() == srcs.len(),
        forall|u: int| 0 <= u < srcs.len() ==> p0[u] <= #[trigger] p1[u],
    ensures
        remaining(srcs, p1, n) <= remaining(srcs, p0, n),
        0 <= b < n && p0[b] < p1[b] ==> remaining(srcs, p1, n) < remaining(srcs, p0, n),
    decreases n,
{
    if n > 0 {
        lemma_remaining_decreases(srcs, p0, p1, n - 1, b);
    }
}

proof fn lemma_remaining_nonneg(srcs: Seq<Seq<Item>>, p: Seq<usize>, n: int)
    requires
        0 <= n <= srcs.len(),
        p.len() == srcs.len(),
        forall|u: int| 0 <= u < srcs.len() ==> #[trigger] p[u] <= srcs[u].len(),
    ensures
        remaining(srcs, p, n) >= 0,
    decreases n,
{
    if n > 0 {
        lemma_remaining_nonneg(srcs, p, n - 1);
    }
}

/// The newest table holding `k` decides what `lookup_newest` finds.
proof fn lemma_lookup_newest_at(srcs: Seq<Seq<Item>>, k: Seq<u8>, t: int, i: int)
    requires
        0 <= t < srcs.len(),
        0 <= i < srcs[t].len(),
        srcs[t][i].0 == k,
        sorted(srcs[t]),
        forall|u: int, j: int| t < u < srcs.len() && 0 <= j < srcs[u].len() ==> (#[trigger] srcs[u][j]).0 != k,
    ensures
        lookup_newest(srcs, k) == Some(srcs[t][i].1),
    decreases srcs.len(),
{
    if t == srcs.len() - 1 {
        lemma_map_of_index(srcs[t], i);
    } else {
        let rest = srcs.drop_last();
        assert(!map_of(srcs.last()).contains_key(k)) by {
            if map_of(srcs.last()).contains_key(k) {
                let j = choose|j: int| 0 <= j < srcs.last().len() && srcs.last()[j].0 == k;
                assert(srcs[srcs.len() - 1][j].0 == k);
            }
        }
        assert forall|u: int, j: int| t < u < rest.len() && 0 <= j < rest[u].len() implies (#[trigger] rest[u][j]).0 != k by {
            assert(rest[u] == srcs[u]);
        }
        lemma_lookup_newest_at(rest, k, t, i);
    }
}

/// `lookup_newest` finds a key exactly when some table holds it.
proof fn lemma_lookup_newest_some(srcs: Seq<Seq<Item>>, k: Seq<u8>)
    ensures
        lookup_newest(srcs, k) is Some <==> exists|u: int, j: int|
            0 <= u < srcs.len() && 0 <= j < srcs[u].len() && (#[trigger] srcs[u][j]).0 == k,
    decreases srcs.len(),
{
    if srcs.len() > 0 {
        let rest = srcs.drop_last();
        lemma_lookup_newest_some(rest, k);
        if map_of(srcs.last()).contains_key(k) {
            let j = choose|j: int| 0 <= j < srcs.last().len() && srcs.last()[j].0 == k;
            assert(srcs[srcs.len() - 1][j].0 == k);
        } else {
            if exists|u: int, j: int| 0 <= u < srcs.len() && 0 <= j < srcs[u].len() && (#[trigger] srcs[u][j]).0 == k {
                let (u, j) = choose|u: int, j: int| 0 <= u < srcs.len() && 0 <= j < srcs[u].len() && (#[trigger] srcs[u][j]).0 == k;
                if u == srcs.len() - 1 {
                    assert(map_of(srcs.last()).contains_key(k));
                } else {
                    assert(rest[u][j] == srcs[u][j]);
                }
            }
            if exists|u: int, j: int| 0 <= u < rest.len() && 0 <= j < rest[u].len() && (#[trigger] rest[u][j]).0 == k {
                let (u, j) = choose|u: int, j: int| 0 <= u < rest.len() && 0 <= j < rest[u].len() && (#[trigger] rest[u][j]).0 == k;
                assert(srcs[u][j] == rest[u][j]);
            }
        }
    }
}

/// Whether the keys of `entries` ascend strictly.
pub fn is_sorted(entries: &Vec<Entry>) -> (r: bool)
    ensures
        r == sorted(items_of(entries@)),
{
    let ghost s = items_of(entries@);
    let mut i: usize = 1;
    if entries.len() == 0 {
        return true;
    }
    while i < entries.len()
        invariant
            1 <= i <= entries@.len(),
            s == items_of(entries@),
            sorted(s.subrange(0, i as int)),
        decreases entries@.len() - i,
    {
        assert(s[i - 1].0 == entries@[i - 1].key@);
        assert(s[i as int].0 == entries@[i as int].key@);
        match compare_keys(entries[i - 1].key.as_slice(), entries[i].key.as_slice()) {
            core::cmp::Ordering::Less => {},
            _ => {
                assert(!key_less(s[i - 1].0, s[i as int].0));
                return false;
            },
        }
        proof {
            let t = s.subrange(0, i + 1);
            assert forall|a: int, b: int| 0 <= a < b < t.len() implies key_less(#[trigger] t[a].0, #[trigger] t[b].0) by {
                if b == i && a < i - 1 {
                    assert(s.subrange(0, i as int)[a] == s[a]);
                    assert(s.subrange(0, i as int)[i - 1] == s[i - 1]);
                    lemma_key_less_transitive(s[a].0, s[i - 1].0, s[i as int].0);
                } else if b < i {
                    assert(s.subrange(0, i as int)[a] == t[a]);
                    assert(s.subrange(0, i as int)[b] == t[b]);
                }
            }
        }
        i = i + 1;
    }
    assert(s.subrange(0, i as int) =~= s);
    true
}

/// Duplicates an entry.
pub fn copy_entry(e: &Entry) -> (r: Entry)
    ensures
        r.key@ == e.key@,
        r.value@ == e.value@,
{
    Entry { key: e.key.clone(), value: copy_value(&e.value) }
}

/// The key at the head of table `t`: the first entry the merge has not
/// gone past.
pub open spec fn head(srcs: Seq<Seq<Item>>, pos: Seq<usize>, t: int) -> Seq<u8> {
    srcs[t][pos[t] as int].0
}

/// Whether table `t` has entries the merge has not gone past.
pub open spec fn has_head(srcs: Seq<Seq<Item>>, pos: Seq<usize>, t: int) -> bool {
    pos[t] < srcs[t].len()
}

/// Merges the entries of the tables `sources[order[0]]`, `sources[order[1]]`,
/// ... (oldest first, each in ascending order of key) into the entries of
/// one table in ascending order of key: for each key, the entry of the
/// newest table that holds it, unless that entry is a delete and
/// `remove_tombstones` holds.
///
/// This is a k-way merge: at each step it takes the smallest key at the
/// head of any table, keeps the entry of the newest table among those whose
/// head holds it, and moves every such table past it.
pub fn merge_tables(sources: &Vec<Vec<Entry>>, order: &Vec<usize>, remove_tombstones: bool) -> (r: Vec<Entry>)
    requires
        forall|i: int| 0 <= i < order@.len() ==> #[trigger] order@[i] < sources@.len(),
        forall|i: int| 0 <= i < order@.len() ==> sorted(#[trigger] select(tables_view(sources@), order@)[i]),
    ensures
        sorted(items_of(r@)),
        map_of(items_of(r@)) == compacted(select(tables_view(sources@), order@), remove_tombstones),
{
    let ghost srcs = select(tables_view(sources@), order@);
    let ghost c = compacted(srcs, remove_tombstones);
    let n = order.len();
    let mut pos: Vec<usize> = Vec::new();
    while pos.len() < n
        invariant
            pos@.len() <= n,
            forall|u: int| 0 <= u < pos@.len() ==> #[trigger] pos@[u] == 0,
        decreases n - pos@.len(),
    {
        pos.push(0);
    }
    let mut out: Vec<Entry> = Vec::new();
    proof {
        assert forall|k: Seq<u8>| !consumed(srcs, pos@, k) by {}
        assert(map_of(items_of(out@)) =~= Map::<Seq<u8>, (Seq<u8>, i64)>::empty());
    }
    loop
        invariant
            n == order@.len(),
            srcs == select(tables_view(sources@), order@),
            c == compacted(srcs, remove_tombstones),
            forall|i: int| 0 <= i < n ==> #[trigger] order@[i] < sources@.len(),
            forall|i: int| 0 <= i < n ==> sorted(#[trigger] srcs[i]),
            pos@.len() == n,
            forall|u: int| 0 <= u < n ==> #[trigger] pos@[u] <= srcs[u].len(),
            behind(srcs, pos@),
            sorted(items_of(out@)),
            forall|k: Seq<u8>| #[trigger] map_of(items_of(out@)).contains_key(k) <==> consumed(srcs, pos@, k) && c.contains_key(k),
            forall|k: Seq<u8>| #[trigger] map_of(items_of(out@)).contains_key(k) ==> map_of(items_of(out@))[k] == merged(srcs)[k],
        ensures
            sorted(items_of(out@)),
            map_of(items_of(out@)) == c,
        decreases remaining(srcs, pos@, n as int),
    {
        let mut best: usize = n;
        let mut s: usize = 0;
        while s < n
            invariant
                n == order@.len(),
                srcs == select(tables_view(sources@), order@),
                forall|i: int| 0 <= i < n ==> #[trigger] order@[i] < sources@.len(),
                pos@.len() == n,
                forall|u: int| 0 <= u < n ==> #[trigger] pos@[u] <= srcs[u].len(),
                s <= n,
                best == n || (best < s && has_head(srcs, pos@, best as int)),
                best == n ==> forall|t: int| 0 <= t < s ==> !#[trigger] has_head(srcs, pos@, t),
                best < n ==> forall|t: int|
                    0 <= t < s && #[trigger] has_head(srcs, pos@, t) ==> head(srcs, pos@, best as int) == head(srcs, pos@, t)
                        || key_less(head(srcs, pos@, best as int), head(srcs, pos@, t)),
                best < n ==> forall|t: int|
                    best < t < s && #[trigger] has_head(srcs, pos@, t) ==> head(srcs, pos@, t) != head(srcs, pos@, best as int),
            decreases n - s,
        {
            let src = &sources[order[s]];
            assert(srcs[s as int] == items_of(src@));
            if pos[s] < src.len() {
                if best == n {
                    best = s;
                } else {
                    let cur = &sources[order[best]];
                    assert(srcs[best as int] == items_of(cur@));
                    let ghost hb = head(srcs, pos@, best as int);
                    let ghost hs = head(srcs, pos@, s as int);
                    assert(hb == cur@[pos@[best as int] as int].key@);
                    assert(hs == src@[pos@[s as int] as int].key@);
                    match compare_keys(src[pos[s]].key.as_slice(), cur[pos[best]].key.as_slice()) {
                        core::cmp::Ordering::Greater => {
                            proof { lemma_key_less_irreflexive(hs); }
                        },
                        _ => {
                            proof {
                                assert forall|t: int|
                                    0 <= t < s + 1 && #[trigger] has_head(srcs, pos@, t) implies hs == head(srcs, pos@, t)
                                        || key_less(hs, head(srcs, pos@, t)) by {
                                    if t < s && key_less(hs, hb) && key_less(hb, head(srcs, pos@, t)) {
                                        lemma_key_less_transitive(hs, hb, head(srcs, pos@, t));
                                    }
                                }
                            }
                            best = s;
                        },
                    }
                }
            }
            s = s + 1;
        }
        if best == n {
            proof {
                assert forall|k: Seq<u8>| #[trigger] map_of(items_of(out@)).contains_key(k) <==> c.contains_key(k) by {
                    lemma_merged_newest(srcs, k);
                    lemma_lookup_newest_some(srcs, k);
                    if c.contains_key(k) {
                        let (u, j) = choose|u: int, j: int| 0 <= u < srcs.len() && 0 <= j < srcs[u].len() && (#[trigger] srcs[u][j]).0 == k;
                        assert(!has_head(srcs, pos@, u));
                    }
                }
                assert(map_of(items_of(out@)) =~= c);
            }
            break;
        }
        let cur = &sources[order[best]];
        assert(srcs[best as int] == items_of(cur@));
        let chosen = copy_entry(&cur[pos[best]]);
        let ghost m = chosen.key@;
        let ghost v = chosen.value@;
        let ghost p0 = pos@;
        let ghost b = best as int;
        assert(m == head(srcs, p0, b));
        assert(v == srcs[b][p0[b] as int].1);
        let mut t: usize = 0;
        while t < n
            invariant
                n == order@.len(),
                srcs == select(tables_view(sources@), order@),
                forall|i: int| 0 <= i < n ==> #[trigger] order@[i] < sources@.len(),
                p0.len() == n,
                pos@.len() == n,
                t <= n,
                forall|u: int| 0 <= u < n ==> #[trigger] p0[u] <= srcs[u].len(),
                chosen.key@ == m,
                forall|u: int| 0 <= u < t ==> #[trigger] pos@[u] == p0[u] + (if has_head(srcs, p0, u) && head(srcs, p0, u) == m { 1int } else { 0int }),
                forall|u: int| t <= u < n ==> #[trigger] pos@[u] == p0[u],
            decreases n - t,
        {
            let src = &sources[order[t]];
            assert(srcs[t as int] == items_of(src@));
            if pos[t] < src.len() {
                assert(head(srcs, p0, t as int) == src@[pos@[t as int] as int].key@);
                match compare_keys(src[pos[t]].key.as_slice(), chosen.key.as_slice()) {
                    core::cmp::Ordering::Equal => {
                        let next = pos[t] + 1;
                        pos.set(t, next);
                    },
                    _ => {},
                }
            }
            t = t + 1;
        }
        let ghost p1 = pos@;
        proof {
            lemma_key_less_irreflexive(m);
            assert forall|u: int| 0 <= u < n implies #[trigger] p0[u] <= p1[u] && p1[u] <= srcs[u].len() by {}
            lemma_remaining_decreases(srcs, p0, p1, n as int, b);
            lemma_remaining_nonneg(srcs, p1, n as int);
            // The merge had not gone past `m`.
            assert(!consumed(srcs, p0, m)) by {
                if consumed(srcs, p0, m) {
                    let (s0, i0) = choose|s0: int, i0: int| 0 <= s0 < srcs.len() && 0 <= i0 < p0[s0] && (#[trigger] srcs[s0][i0]).0 == m;
                    assert(key_less(srcs[s0][i0].0, srcs[b][p0[b] as int].0));
                }
            }
            // No newer table holds `m`.
            assert forall|u: int, j: int| b < u < srcs.len() && 0 <= j < srcs[u].len() implies (#[trigger] srcs[u][j]).0 != m by {
                if j < p0[u] {
                    assert(key_less(srcs[u][j].0, srcs[b][p0[b] as int].0));
                } else if j == p0[u] {
                    assert(has_head(srcs, p0, u));
                } else {
                    assert(has_head(srcs, p0, u));
                    assert(key_less(srcs[u][p0[u] as int].0, srcs[u][j].0));
                    if key_less(m, head(srcs, p0, u)) {
                        lemma_key_less_transitive(m, head(srcs, p0, u), srcs[u][j].0);
                    }
                }
            }
            lemma_lookup_newest_at(srcs, m, b, p0[b] as int);
            lemma_merged_newest(srcs, m);
            assert(merged(srcs).contains_key(m) && merged(srcs)[m] == v);
            // Everything gone past now sorts before everything ahead.
            assert forall|s0: int, i0: int, t0: int, j0: int|
                0 <= s0 < srcs.len() && 0 <= i0 < p1[s0] && 0 <= t0 < srcs.len() && p1[t0] <= j0 < srcs[t0].len() implies key_less(
                (#[trigger] srcs[s0][i0]).0,
                (#[trigger] srcs[t0][j0]).0,
            ) by {
                if i0 < p0[s0] {
                    assert(p0[t0] <= j0);
                } else {
                    assert(i0 == p0[s0]);
                    assert(srcs[s0][i0].0 == m);
                    if p1[t0] > p0[t0] {
                        assert(key_less(srcs[t0][p0[t0] as int].0, srcs[t0][j0].0));
                    } else if j0 == p0[t0] {
                        assert(has_head(srcs, p0, t0));
                    } else {
                        assert(has_head(srcs, p0, t0));
                        assert(key_less(srcs[t0][p0[t0] as int].0, srcs[t0][j0].0));
                        lemma_key_less_transitive(m, head(srcs, p0, t0), srcs[t0][j0].0);
                    }
                }
            }
            // The merge has now gone past exactly `m` more.
            assert forall|k: Seq<u8>| #[trigger] consumed(srcs, p1, k) <==> consumed(srcs, p0, k) || k == m by {
                if consumed(srcs, p1, k) {
                    let (s0, i0) = choose|s0: int, i0: int| 0 <= s0 < srcs.len() && 0 <= i0 < p1[s0] && (#[trigger] srcs[s0][i0]).0 == k;
                    if i0 >= p0[s0] {
                        assert(srcs[s0][i0].0 == m);
                    }
                }
                if consumed(srcs, p0, k) {
                    let (s0, i0) = choose|s0: int, i0: int| 0 <= s0 < srcs.len() && 0 <= i0 < p0[s0] && (#[trigger] srcs[s0][i0]).0 == k;
                    assert(i0 < p1[s0]);
                }
                if k == m {
                    assert(srcs[b][p0[b] as int].0 == m);
                    assert(p0[b] < p1[b]);
                }
            }
        }
        if !(remove_tombstones && chosen.value.data.len() == 0) {
            let ghost before = items_of(out@);
            out.push(chosen);
            proof {
                let after = items_of(out@);
                assert(after =~= before.push((m, v)));
                assert forall|a: int, bb: int| 0 <= a < bb < after.len() implies key_less(#[trigger] after[a].0, #[trigger] after[bb].0) by {
                    if bb == before.len() {
                        lemma_map_of_index(before, a);
                        let k = before[a].0;
                        assert(consumed(srcs, p0, k));
                        let (s0, i0) = choose|s0: int, i0: int| 0 <= s0 < srcs.len() && 0 <= i0 < p0[s0] && (#[trigger] srcs[s0][i0]).0 == k;
                        assert(key_less(srcs[s0][i0].0, srcs[b][p0[b] as int].0));
                    } else {
                        assert(after[a] == before[a] && after[bb] == before[bb]);
                    }
                }
                lemma_map_of_push_sorted(before, (m, v));
                assert(c.contains_key(m));
            }
        } else {
            proof {
                assert(!c.contains_key(m));
            }
        }
    }
    out
}

/// The durable record of a compaction: the renames that install its output
/// and the source files to delete.
#[derive(Debug)]
pub struct CompactionAction {
    pub renames: Vec<(Vec<u8>, Vec<u8>)>,
    pub deletes: Vec<Vec<u8>>,
}

pub open spec fn renames_view(r: Seq<(Vec<u8>, Vec<u8>)>) -> Seq<(Seq<u8>, Seq<u8>)> {
    r.map_values(|p: (Vec<u8>, Vec<u8>)| (p.0@, p.1@))
}

pub open spec fn paths_view(d: Seq<Vec<u8>>) -> Seq<Seq<u8>> {
    d.map_values(|p: Vec<u8>| p@)
}

/// Byte strings one after the other, each preceded by its length.
pub open spec fn framed_all(s: Seq<Seq<u8>>) -> Seq<u8>
    decreases s.len(),
{
    if s.len() == 0 {
        Seq::empty()
    } else {
        framed_all(s.drop_last()) + framed(s.last())
    }
}

/// Pairs of byte strings one after the other, each string preceded by its
/// length.
pub open spec fn framed_pairs(s: Seq<(Seq<u8>, Seq<u8>)>) -> Seq<u8>
    decreases s.len(),
{
    if s.len() == 0 {
        Seq::empty()
    } else {
        framed_pairs(s.drop_last()) + framed(s.last().0) + framed(s.last().1)
    }
}

/// The encoding of an intent record: the renames, then the deletes, each
/// list preceded by its length.
pub open spec fn action_bytes(renames: Seq<(Seq<u8>, Seq<u8>)>, deletes: Seq<Seq<u8>>) -> Seq<u8> {
    le_bytes(renames.len() as u64) + framed_pairs(renames) + le_bytes(deletes.len() as u64) + framed_all(deletes)
}

/// Relies on bincode's `Options::serialize` with fixed-width integers and
/// no size limit, which cannot fail on sequences of byte strings: a tuple
/// of two sequences is written as each sequence's length in eight
/// little-endian bytes followed by its elements, and a byte string as its
/// length followed by its bytes.
#[verifier::external_body]
fn bincode_action(renames: &Vec<(Vec<u8>, Vec<u8>)>, deletes: &Vec<Vec<u8>>) -> (r: core::result::Result<
    Vec<u8>,
    Box<bincode::ErrorKind>,
>)
    ensures
        r is Ok,
        r matches Ok(b) ==> b@ == action_bytes(renames_view(renames@), paths_view(deletes@)),
{
    bincode::DefaultOptions::new().reject_trailing_bytes().with_fixint_encoding().serialize(&(renames, deletes))
}

/// Relies on bincode's `Options::deserialize_from` with fixed-width
/// integers, reading from a byte slice: on success one encoded record has
/// been read from the front of `b`, and when `b` starts with the encoding
/// of a record, that record is what comes back. The second component is
/// the number of bytes left unread.
#[verifier::external_body]
fn bincode_decode_action_prefix(b: &[u8]) -> (r: core::result::Result<
    ((Vec<(Vec<u8>, Vec<u8>)>, Vec<Vec<u8>>), usize),
    Box<bincode::ErrorKind>,
>)
    ensures
        r matches Ok(t) ==> t.1 <= b@.len() && b@.subrange(0, b@.len() - t.1) == action_bytes(
            renames_view(t.0.0@),
            paths_view(t.0.1@),
        ),
        r is Err ==> forall|ra: Seq<(Seq<u8>, Seq<u8>)>, da: Seq<Seq<u8>>|
            !(#[trigger] action_bytes(ra, da).len() <= b@.len() && b@.subrange(0, action_bytes(ra, da).len() as int)
                == action_bytes(ra, da)),
        r matches Ok(x) ==> forall|ra: Seq<(Seq<u8>, Seq<u8>)>, da: Seq<Seq<u8>>|
            #[trigger] action_bytes(ra, da).len() <= b@.len() && b@.subrange(0, action_bytes(ra, da).len() as int)
                == action_bytes(ra, da) ==> renames_view(x.0.0@) == ra && paths_view(x.0.1@) == da,
{
    let mut rest = b;
    let t = bincode::DefaultOptions::new().reject_trailing_bytes().with_fixint_encoding()
        .deserialize_from(&mut rest)?;
    Ok((t, rest.len()))
}

impl CompactionAction {
    pub open spec fn bytes(&self) -> Seq<u8> {
        action_bytes(renames_view(self.renames@), paths_view(self.deletes@))
    }

    /// Encodes the record for the intent file.
    pub fn encode(&self) -> (r: Result<Vec<u8>>)
        ensures
            r is Ok,
            r matches Ok(b) ==> b@ == self.bytes(),
    {
        match bincode_action(&self.renames, &self.deletes) {
            Ok(b) => Ok(b),
            Err(_) => Err(Error::Serialization),
        }
    }
}

/// The encodings of `actions`, one after the other.
pub open spec fn actions_bytes(actions: Seq<CompactionAction>) -> Seq<u8>
    decreases actions.len(),
{
    if actions.len() == 0 {
        Seq::empty()
    } else {
        actions_bytes(actions.drop_last()) + actions.last().bytes()
    }
}

/// The view of an intent record: its renames and its deletes.
pub type ActionView = (Seq<(Seq<u8>, Seq<u8>)>, Seq<Seq<u8>>);

pub open spec fn action_view(a: CompactionAction) -> ActionView {
    (renames_view(a.renames@), paths_view(a.deletes@))
}

/// An intent file holding the records `acts`, one after the other.
pub open spec fn actions_log(acts: Seq<ActionView>) -> Seq<u8>
    decreases acts.len(),
{
    if acts.len() == 0 {
        Seq::empty()
    } else {
        actions_log(acts.drop_last()) + action_bytes(acts.last().0, acts.last().1)
    }
}

proof fn lemma_actions_log_take(acts: Seq<ActionView>, j: int)
    requires
        0 <= j <= acts.len(),
    ensures
        actions_log(acts.take(j)).len() + (acts.len() - j) * 16 <= actions_log(acts).len(),
        actions_log(acts).subrange(0, actions_log(acts.take(j)).len() as int) == actions_log(acts.take(j)),
    decreases acts.len(),
{
    if j == acts.len() {
        assert(acts.take(j) =~= acts);
        assert(actions_log(acts).subrange(0, actions_log(acts).len() as int) =~= actions_log(acts));
    } else {
        let rest = acts.drop_last();
        assert(rest.take(j) =~= acts.take(j));
        lemma_actions_log_take(rest, j);
        let x = actions_log(rest);
        let y = action_bytes(acts.last().0, acts.last().1);
        assert(actions_log(acts) == x + y);
        assert((x + y).subrange(0, actions_log(acts.take(j)).len() as int) =~= x.subrange(0, actions_log(acts.take(j)).len() as int));
    }
}

/// Decodes the records of an intent file, from the front, up to the first
/// that does not decode. A file written as the records `acts` decodes to
/// exactly those records.
#[verifier::rlimit(60)]
pub fn decode_actions(b: &[u8]) -> (r: Vec<CompactionAction>)
    ensures
        actions_bytes(r@) == b@.subrange(0, actions_bytes(r@).len() as int),
        actions_bytes(r@).len() <= b@.len(),
        forall|acts: Seq<ActionView>| #[trigger] actions_log(acts) == b@ ==> r@.map_values(
            |a: CompactionAction| action_view(a),
        ) == acts,
{
    let mut out: Vec<CompactionAction> = Vec::new();
    let mut pos: usize = 0;
    assert(actions_bytes(out@) =~= b@.subrange(0, 0));
    proof {
        assert forall|acts: Seq<ActionView>| #[trigger] actions_log(acts) == b@ implies {
            &&& out@.len() <= acts.len()
            &&& out@.map_values(|a: CompactionAction| action_view(a)) == acts.take(out@.len() as int)
            &&& pos == actions_log(acts.take(out@.len() as int)).len()
        } by {
            assert(acts.take(0) =~= Seq::<ActionView>::empty());
            assert(out@.map_values(|a: CompactionAction| action_view(a)) =~= acts.take(0));
        }
    }
    while pos < b.len()
        invariant
            pos <= b@.len(),
            actions_bytes(out@) == b@.subrange(0, pos as int),
            forall|acts: Seq<ActionView>| #[trigger] actions_log(acts) == b@ ==> {
                &&& out@.len() <= acts.len()
                &&& out@.map_values(|a: CompactionAction| action_view(a)) == acts.take(out@.len() as int)
                &&& pos == actions_log(acts.take(out@.len() as int)).len()
            },
        ensures
            forall|acts: Seq<ActionView>| #[trigger] actions_log(acts) == b@ ==> pos >= b@.len(),
        decreases b@.len() - pos,
    {
        let rest = &b[pos..b.len()];
        let ghost c = out@.len() as int;
        proof {
            assert forall|acts: Seq<ActionView>| #[trigger] actions_log(acts) == b@ implies {
                &&& c < acts.len()
                &&& action_bytes(acts[c].0, acts[c].1).len() <= rest@.len()
                &&& rest@.subrange(0, action_bytes(acts[c].0, acts[c].1).len() as int) == action_bytes(acts[c].0, acts[c].1)
                &&& actions_log(acts.take(c + 1)).len() == pos + action_bytes(acts[c].0, acts[c].1).len()
                &&& action_bytes(acts[c].0, acts[c].1).len() >= 16
            } by {
                lemma_actions_log_take(acts, c);
                if c == acts.len() {
                    assert(acts.take(c) =~= acts);
                }
                let t1 = acts.take(c + 1);
                assert(t1.drop_last() =~= acts.take(c));
                assert(t1.last() == acts[c]);
                lemma_actions_log_take(acts, c + 1);
                let x = actions_log(acts.take(c));
                let y = action_bytes(acts[c].0, acts[c].1);
                assert(actions_log(t1) == x + y);
                assert(b@.subrange(0, (x + y).len() as int) == x + y);
                assert(rest@.subrange(0, y.len() as int) =~= b@.subrange(pos as int, pos + y.len()));
                assert(b@.subrange(pos as int, pos + y.len()) =~= (x + y).subrange(pos as int, pos + y.len()));
                assert((x + y).subrange(pos as int, pos + y.len()) =~= y);
            }
        }
        match bincode_decode_action_prefix(rest) {
            Ok(((renames, deletes), left)) => {
                let used = rest.len() - left;
                if used == 0 {
                    proof {
                        assert forall|acts: Seq<ActionView>| #[trigger] actions_log(acts) == b@ implies false by {
                            let y = action_bytes(acts[c].0, acts[c].1);
                            assert(rest@.subrange(0, rest@.len() - left) == action_bytes(renames_view(renames@), paths_view(deletes@)));
                            assert(renames_view(renames@) == acts[c].0 && paths_view(deletes@) == acts[c].1);
                        }
                    }
                    break;
                }
                let action = CompactionAction { renames, deletes };
                let ghost before = out@;
                out.push(action);
                proof {
                    assert(out@.drop_last() =~= before);
                    assert(rest@.subrange(0, used as int) == action.bytes());
                    assert(b@.subrange(0, pos + used) =~= b@.subrange(0, pos as int) + rest@.subrange(0, used as int));
                    assert forall|acts: Seq<ActionView>| #[trigger] actions_log(acts) == b@ implies {
                        &&& out@.len() <= acts.len()
                        &&& out@.map_values(|a: CompactionAction| action_view(a)) == acts.take(out@.len() as int)
                        &&& pos + used == actions_log(acts.take(out@.len() as int)).len()
                    } by {
                        assert(action_view(action) == acts[c]);
                        assert(out@.map_values(|a: CompactionAction| action_view(a)) =~= before.map_values(
                            |a: CompactionAction| action_view(a),
                        ).push(action_view(action)));
                        assert(acts.take(c + 1) =~= acts.take(c).push(acts[c]));
                    }
                }
                pos = pos + used;
            },
            Err(_) => {
                break;
            },
        }
    }
    proof {
        assert forall|acts: Seq<ActionView>| #[trigger] actions_log(acts) == b@ implies out@.map_values(
            |a: CompactionAction| action_view(a),
        ) == acts by {
            let c = out@.len() as int;
            lemma_actions_log_take(acts, c);
            if c < acts.len() {
                assert(actions_log(acts.take(c)).len() + 16 <= b@.len()) by (nonlinear_arith)
                    requires actions_log(acts.take(c)).len() + (acts.len() - c) * 16 <= b@.len(), c < acts.len();
            }
            assert(acts.take(c) =~= acts);
        }
    }
    out
}

/// The files of tables `sources` in `dir`: data then index, for each.
pub open spec fn table_files(dir: Seq<u8>, sources: Seq<usize>) -> Seq<Seq<u8>>
    decreases sources.len(),
{
    if sources.len() == 0 {
        Seq::empty()
    } else {
        table_files(dir, sources.drop_last()) + seq![
            file_path(dir, sources.last() as nat, ext_of(FileKind::Data)),
            file_path(dir, sources.last() as nat, ext_of(FileKind::Index)),
        ]
    }
}

/// The intent record of compacting the tables `sources` of directory `dir`
/// into table `output`: rename the two output files into place, and delete
/// both files of every source.
pub fn compaction_action(dir: &[u8], sources: &Vec<usize>, output: usize) -> (r: CompactionAction)
    ensures
        renames_view(r.renames@) == seq![
            (file_path(dir@, output as nat, ext_of(FileKind::CompactData)), file_path(dir@, output as nat, ext_of(FileKind::Data))),
            (file_path(dir@, output as nat, ext_of(FileKind::CompactIndex)), file_path(dir@, output as nat, ext_of(FileKind::Index))),
        ],
        paths_view(r.deletes@) == table_files(dir@, sources@),
{
    let data_ext = FileKind::Data.ext();
    let index_ext = FileKind::Index.ext();
    let compact_data = get_file_path(dir, output, FileKind::CompactData.ext().as_slice());
    let final_data = get_file_path(dir, output, data_ext.as_slice());
    let compact_index = get_file_path(dir, output, FileKind::CompactIndex.ext().as_slice());
    let final_index = get_file_path(dir, output, index_ext.as_slice());
    let mut renames: Vec<(Vec<u8>, Vec<u8>)> = Vec::new();
    renames.push((compact_data, final_data));
    renames.push((compact_index, final_index));
    assert(renames_view(renames@) =~= seq![
        (file_path(dir@, output as nat, ext_of(FileKind::CompactData)), file_path(dir@, output as nat, ext_of(FileKind::Data))),
        (file_path(dir@, output as nat, ext_of(FileKind::CompactIndex)), file_path(dir@, output as nat, ext_of(FileKind::Index))),
    ]);
    let mut deletes: Vec<Vec<u8>> = Vec::new();
    let mut i: usize = 0;
    assert(paths_view(deletes@) =~= table_files(dir@, sources@.subrange(0, 0)));
    while i < sources.len()
        invariant
            i <= sources@.len(),
            data_ext@ == ext_of(FileKind::Data),
            index_ext@ == ext_of(FileKind::Index),
            paths_view(deletes@) == table_files(dir@, sources@.subrange(0, i as int)),
        decreases sources@.len() - i,
    {
        let ghost before = deletes@;
        deletes.push(get_file_path(dir, sources[i], data_ext.as_slice()));
        deletes.push(get_file_path(dir, sources[i], index_ext.as_slice()));
        proof {
            assert(sources@.subrange(0, i + 1).drop_last() =~= sources@.subrange(0, i as int));
            assert(paths_view(deletes@) =~= table_files(dir@, sources@.subrange(0, i + 1)));
        }
        i = i + 1;
    }
    assert(sources@.subrange(0, i as int) =~= sources@);
    CompactionAction { renames, deletes }
}

} // verus!
