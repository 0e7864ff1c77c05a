//! The Timestamp strategy: a load order encoded in modification times.
//!
//! Plugins with equal times keep the order in which the scan listed them.
use vstd::prelude::*;

verus! {

/// A plugin file's name and modification time, in seconds.
#[derive(Debug)]
pub struct PluginTime {
    pub name: String,
    pub mtime: i64,
}

/// `p` lists each index below `n` once.
pub open spec fn is_permutation(p: Seq<int>, n: int) -> bool {
    &&& p.len() == n
    &&& forall|k: int| 0 <= k < p.len() ==> 0 <= #[trigger] p[k] < n
    &&& p.no_duplicates()
}

/// Entries of equal time keep their relative order.
pub open spec fn stable(entries: Seq<PluginTime>, p: Seq<int>) -> bool {
    forall|a: int, b: int| 0 <= a < b < p.len() && entries[#[trigger] p[a]].mtime == entries[#[trigger] p[b]].mtime ==> p[a] < p[b]
}

/// The entries that `p` picks are in ascending order of time.
pub open spec fn sorted_by_time(entries: Seq<PluginTime>, p: Seq<int>) -> bool {
    forall|a: int, b: int| 0 <= a < b < p.len() ==> entries[#[trigger] p[a]].mtime <= entries[#[trigger] p[b]].mtime
}

pub open spec fn as_ints(v: Seq<usize>) -> Seq<int> {
    v.map_values(|x: usize| x as int)
}

/// The indices of `entries` in ascending order of time; equal times keep their
/// order in `entries`.
pub fn sort_by_time(entries: &Vec<PluginTime>) -> (r: Vec<usize>)
    ensures
        is_permutation(as_ints(r@), entries@.len() as int),
        sorted_by_time(entries@, as_ints(r@)),
        stable(entries@, as_ints(r@)),
{
    let mut r: Vec<usize> = Vec::new();
    let mut i: usize = 0;
    while i < entries.len()
        invariant
            i <= entries@.len(),
            r@.len() == i,
            forall|k: int| 0 <= k < r@.len() ==> #[trigger] r@[k] < i,
            as_ints(r@).no_duplicates(),
            sorted_by_time(entries@, as_ints(r@)),
            stable(entries@, as_ints(r@)),
        decreases entries@.len() - i,
    {
        let t = entries[i].mtime;
        let mut p: usize = r.len();
        while p > 0 && entries[r[p - 1]].mtime > t
            invariant
                p <= r@.len(),
                r@.len() == i,
                i < entries@.len(),
                forall|k: int| 0 <= k < r@.len() ==> #[trigger] r@[k] < i,
                forall|k: int| p <= k < r@.len() ==> entries@[#[trigger] r@[k] as int].mtime > t,
            decreases p,
        {
            p = p - 1;
        }
        let ghost before = r@;
        r.insert(p, i);
        proof {
            assert forall|k: int| 0 <= k < r@.len() implies #[trigger] r@[k] < i + 1 by {
                if k < p {
                    assert(r@[k] == before[k]);
                } else if k > p {
                    assert(r@[k] == before[k - 1]);
                }
            }
            let ri = as_ints(r@);
            let bi = as_ints(before);
            assert forall|a: int, b: int| 0 <= a < b < ri.len() implies ri[a] != ri[b] by {
                if a != p && b != p {
                    let a2 = if a < p { a } else { a - 1 };
                    let b2 = if b < p { b } else { b - 1 };
                    assert(ri[a] == bi[a2]);
                    assert(ri[b] == bi[b2]);
                } else if a == p {
                    let b2 = b - 1;
                    assert(ri[b] == before[b2] as int);
                } else {
                    assert(ri[a] == before[a] as int);
                }
            }
            assert forall|a: int, b: int| 0 <= a < b < ri.len()
                implies entries@[#[trigger] ri[a]].mtime <= entries@[#[trigger] ri[b]].mtime by {
                if a != p && b != p {
                    let a2 = if a < p { a } else { a - 1 };
                    let b2 = if b < p { b } else { b - 1 };
                    assert(ri[a] == bi[a2]);
                    assert(ri[b] == bi[b2]);
                } else if a == p {
                    assert(ri[b] == before[b - 1] as int);
                } else {
                    assert(ri[a] == before[a] as int);
                    if a + 1 == p {
                        assert(ri[a] == bi[p - 1]);
                    } else {
                        assert(bi[a] <= bi[p - 1] || entries@[bi[a]].mtime <= entries@[bi[p - 1]].mtime);
                    }
                }
            }
        }
        proof {
            let ri = as_ints(r@);
            let bi = as_ints(before);
            assert forall|a: int, b: int| 0 <= a < b < ri.len() && entries@[#[trigger] ri[a]].mtime == entries@[#[trigger] ri[b]].mtime
                implies ri[a] < ri[b] by {
                if a != p && b != p {
                    let a2 = if a < p { a } else { a - 1 };
                    let b2 = if b < p { b } else { b - 1 };
                    assert(ri[a] == bi[a2]);
                    assert(ri[b] == bi[b2]);
                } else if a == p {
                    assert(ri[b] == before[b - 1] as int);
                } else {
                    assert(ri[a] == before[a] as int);
                }
            }
        }
        i = i + 1;
    }
    r
}

/// The names of `entries` in ascending order of time, equal times in scan
/// order: the persisted sequence of the Timestamp strategy, before fixing.
pub fn names_by_time(entries: &Vec<PluginTime>) -> (r: Vec<String>)
    ensures
        r@.len() == entries@.len(),
        exists|p: Seq<int>| #[trigger] is_permutation(p, entries@.len() as int)
            && sorted_by_time(entries@, p) && stable(entries@, p)
            && forall|k: int| 0 <= k < r@.len() ==> #[trigger] r@[k]@ == entries@[p[k]].name@,
{
    let idx = sort_by_time(entries);
    let mut r: Vec<String> = Vec::new();
    let mut k: usize = 0;
    while k < idx.len()
        invariant
            is_permutation(as_ints(idx@), entries@.len() as int),
            k <= idx@.len(),
            r@.len() == k,
            forall|j: int| 0 <= j < k ==> #[trigger] r@[j]@ == entries@[as_ints(idx@)[j]].name@,
        decreases idx@.len() - k,
    {
        assert(as_ints(idx@)[k as int] == idx@[k as int] as int);
        r.push(entries[idx[k]].name.clone());
        k = k + 1;
    }
    assert(is_permutation(as_ints(idx@), entries@.len() as int));
    r
}

/// The earliest time among the non-empty `entries`.
pub open spec fn min_time(entries: Seq<PluginTime>) -> int
    decreases entries.len(),
{
    if entries.len() <= 1 {
        entries[0].mtime as int
    } else {
        let rest = min_time(entries.drop_last());
        if (entries.last().mtime as int) < rest { entries.last().mtime as int } else { rest }
    }
}

/// The earliest time among `entries`, if there is one.
pub fn earliest_time(entries: &Vec<PluginTime>) -> (r: Option<i64>)
    ensures
        r is None <==> entries@.len() == 0,
        r matches Some(t) ==> t == min_time(entries@),
        r matches Some(t) ==> (exists|i: int| 0 <= i < entries@.len() && #[trigger] entries@[i].mtime == t)
            && forall|i: int| 0 <= i < entries@.len() ==> t <= #[trigger] entries@[i].mtime,
{
    if entries.len() == 0 {
        return None;
    }
    let mut t = entries[0].mtime;
    let mut i: usize = 1;
    assert(min_time(entries@.subrange(0, 1)) == entries@[0].mtime);
    while i < entries.len()
        invariant
            1 <= i <= entries@.len(),
            exists|j: int| 0 <= j < entries@.len() && #[trigger] entries@[j].mtime == t,
            forall|j: int| 0 <= j < i ==> t <= #[trigger] entries@[j].mtime,
            t == min_time(entries@.subrange(0, i as int)),
        decreases entries@.len() - i,
    {
        assert(entries@.subrange(0, i + 1).drop_last() =~= entries@.subrange(0, i as int));
        if entries[i].mtime < t {
            t = entries[i].mtime;
        }
        i = i + 1;
    }
    assert(entries@.subrange(0, i as int) =~= entries@);
    Some(t)
}

/// Times for `n` plugins written in order from `start`, one second apart;
/// none when the last would not fit.
pub fn times_from(start: i64, n: usize) -> (r: Option<Vec<i64>>)
    ensures
        r is None <==> n > 0 && start + n - 1 > i64::MAX,
        r matches Some(v) ==> v@.len() == n && forall|k: int| 0 <= k < n ==> #[trigger] v@[k] == start + k,
{
    if n > 0 && (n - 1) as i128 > i64::MAX as i128 - start as i128 {
        return None;
    }
    let mut v: Vec<i64> = Vec::new();
    let mut k: usize = 0;
    while k < n
        invariant
            k <= n,
            n == 0 || start + n - 1 <= i64::MAX,
            v@.len() == k,
            forall|j: int| 0 <= j < k ==> #[trigger] v@[j] == start + j,
        decreases n - k,
    {
        v.push((start as i128 + k as i128) as i64);
        k = k + 1;
    }
    Some(v)
}

/// New modification times that write `n` plugins in order: one second apart,
/// from the earliest time among their current `entries`; none when there is
/// no entry or the last time would not fit.
pub fn plan_times(entries: &Vec<PluginTime>, n: usize) -> (r: Option<Vec<i64>>)
    ensures
        r is None <==> entries@.len() == 0 || (n > 0 && min_time(entries@) + n - 1 > i64::MAX),
        r matches Some(v) ==> forall|k: int| 0 <= k < n ==> #[trigger] v@[k] == min_time(entries@) + k,
        r matches Some(v) ==> v@.len() == n && (forall|i: int| 0 <= i < entries@.len() ==> v@.len() > 0 ==> v@[0] <= #[trigger] entries@[i].mtime)
            && forall|k: int| 0 <= k < n - 1 ==> #[trigger] v@[k] < v@[k + 1],
{
    match earliest_time(entries) {
        None => None,
        Some(t) => times_from(t, n),
    }
}

} // verus!
