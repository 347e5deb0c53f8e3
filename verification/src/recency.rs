//! Ordering entries newest first: a stable sort of positions by timestamp,
//! the greatest timestamp first and ties kept in their original order.
use vstd::prelude::*;
use crate::json::{Json, JsonNumber, JsonView, lemma_members_view, members_view};

verus! {

/// Position `j` stands somewhere in `p`.
pub open spec fn lists(p: Seq<usize>, j: int) -> bool {
    exists|k: int| 0 <= k < p.len() && p[k] == j
}

/// `p` lists every position below `n` once.
pub open spec fn is_permutation(n: nat, p: Seq<usize>) -> bool {
    &&& p.len() == n
    &&& forall|k: int| 0 <= k < p.len() ==> #[trigger] p[k] < n
    &&& forall|a: int, b: int| 0 <= a < b < p.len() ==> p[a] != p[b]
    &&& forall|j: int| 0 <= j < n ==> #[trigger] lists(p, j)
}

/// `p` lists every position of `keys` once, greatest key first, and
/// positions with equal keys in increasing order.
pub open spec fn is_newest_first(keys: Seq<u64>, p: Seq<usize>) -> bool {
    &&& is_permutation(keys.len(), p)
    &&& forall|a: int, b: int| 0 <= a < b < p.len() ==> keys[p[a] as int] >= keys[p[b] as int]
    &&& forall|a: int, b: int| 0 <= a < b < p.len() && keys[p[a] as int] == keys[p[b] as int]
            ==> p[a] < p[b]
}

/// The newest-first order of `keys` (there is exactly one; see
/// `lemma_newest_first_unique`).
pub open spec fn newest_first(keys: Seq<u64>) -> Seq<usize> {
    choose|p: Seq<usize>| is_newest_first(keys, p)
}

/// Law: a list of timestamps has one newest-first order; the stable sort
/// leaves no choice.
pub proof fn lemma_newest_first_unique(keys: Seq<u64>, p: Seq<usize>, q: Seq<usize>)
    requires
        is_newest_first(keys, p),
        is_newest_first(keys, q),
    ensures
        p == q,
{
    assert forall|k: int| 0 <= k < p.len() implies p[k] == q[k] by {
        lemma_same_at(keys, p, q, k);
    }
    assert(p =~= q);
}

/// Two newest-first orders agree at position `k`, by induction on `k`.
proof fn lemma_same_at(keys: Seq<u64>, p: Seq<usize>, q: Seq<usize>, k: int)
    requires
        is_newest_first(keys, p),
        is_newest_first(keys, q),
        0 <= k < p.len(),
    ensures
        p[k] == q[k],
    decreases k,
{
    assert forall|i: int| 0 <= i < k implies p[i] == q[i] by {
        lemma_same_at(keys, p, q, i);
    }
    if p[k] != q[k] {
        let a = p[k];
        let b = q[k];
        // b stands in p at some position kb, which is after k
        assert(lists(p, b as int));
        let kb = choose|x: int| 0 <= x < p.len() && #[trigger] p[x] == b as int;
        assert(p[kb] == b);
        if kb < k {
            assert(q[kb] == p[kb]);
            assert(q[kb] == q[k]);
        }
        assert(kb > k);
        // a stands in q at some position ka, which is after k
        assert(lists(q, a as int));
        let ka = choose|x: int| 0 <= x < q.len() && #[trigger] q[x] == a as int;
        assert(q[ka] == a);
        if ka < k {
            assert(p[ka] == q[ka]);
            assert(p[ka] == p[k]);
        }
        assert(ka > k);
        assert(keys[a as int] >= keys[b as int]);
        assert(keys[b as int] >= keys[a as int]);
        assert(a < b);
        assert(b < a);
    }
}

/// Inserting the next position where its key belongs keeps the order
/// newest first.
proof fn lemma_insert_in_order(ks: Seq<u64>, old_order: Seq<usize>, pos: int, ki: u64)
    requires
        is_newest_first(ks, old_order),
        0 <= pos <= old_order.len(),
        ks.len() < usize::MAX,
        forall|a: int| 0 <= a < pos ==> ks[old_order[a] as int] >= ki,
        forall|b: int| pos <= b < old_order.len() ==> ks[old_order[b] as int] < ki,
    ensures
        is_newest_first(ks.push(ki), old_order.insert(pos, ks.len() as usize)),
{
    let i = ks.len() as usize;
    let ks2 = ks.push(ki);
    old_order.insert_ensures(pos, i);
    let p = old_order.insert(pos, i);
    assert forall|k: int| 0 <= k < p.len() implies #[trigger] p[k] < i + 1 by {
        if k < pos {
            assert(p[k] == old_order[k]);
        } else if k > pos {
            assert(p[k] == old_order[k - 1]);
        }
    }
    assert forall|k: int| 0 <= k < p.len() && k != pos implies #[trigger] ks2[p[k] as int] == ks[p[k] as int] by {
        if k < pos {
            assert(p[k] == old_order[k]);
        } else if k > pos {
            assert(p[k] == old_order[k - 1]);
        }
    }
    assert forall|a: int, b: int| 0 <= a < b < p.len() implies p[a] != p[b] by {
        if a < pos && b < pos {
            assert(p[a] == old_order[a] && p[b] == old_order[b]);
        } else if a < pos && b == pos {
            assert(p[a] == old_order[a]);
        } else if a < pos && b > pos {
            assert(p[a] == old_order[a] && p[b] == old_order[b - 1]);
        } else if a == pos {
            assert(p[b] == old_order[b - 1]);
        } else {
            assert(p[a] == old_order[a - 1] && p[b] == old_order[b - 1]);
        }
    }
    assert forall|j: int| 0 <= j < i + 1 implies lists(p, j) by {
        if j == i {
            assert(p[pos] == j);
        } else {
            assert(lists(old_order, j));
            let k0 = choose|k: int| 0 <= k < old_order.len() && old_order[k] == j;
            if k0 < pos {
                assert(p[k0] == j);
            } else {
                assert(p[k0 + 1] == j);
            }
        }
    }
    assert forall|a: int, b: int| 0 <= a < b < p.len() implies ks2[p[a] as int] >= ks2[p[b] as int]
        && (ks2[p[a] as int] == ks2[p[b] as int] ==> p[a] < p[b]) by {
        if a < pos && b < pos {
            assert(p[a] == old_order[a] && p[b] == old_order[b]);
        } else if a < pos && b == pos {
            assert(p[a] == old_order[a]);
        } else if a < pos && b > pos {
            assert(p[a] == old_order[a] && p[b] == old_order[b - 1]);
        } else if a == pos {
            assert(p[b] == old_order[b - 1]);
        } else {
            assert(p[a] == old_order[a - 1] && p[b] == old_order[b - 1]);
        }
    }
}

/// Orders the positions of `keys` newest first: a stable sort, greatest
/// timestamp first.
pub fn newest_first_order(keys: &Vec<u64>) -> (order: Vec<usize>)
    ensures
        is_newest_first(keys@, order@),
        order@ == newest_first(keys@),
{
    let mut order: Vec<usize> = Vec::new();
    let n = keys.len();
    let mut i: usize = 0;
    while i < n
        invariant
            0 <= i <= n,
            n == keys.len(),
            is_newest_first(keys@.subrange(0, i as int), order@),
        decreases n - i,
    {
        let ghost ks = keys@.subrange(0, i as int);
        let ghost ks2 = keys@.subrange(0, i + 1);
        let ki = keys[i];
        let mut pos: usize = 0;
        while pos < order.len() && keys[order[pos]] >= ki
            invariant
                0 <= pos <= order.len(),
                order.len() == i,
                i < n,
                n == keys.len(),
                ki == keys@[i as int],
                is_newest_first(ks, order@),
                ks == keys@.subrange(0, i as int),
                forall|a: int| 0 <= a < pos ==> keys@[order@[a] as int] >= ki,
            decreases order.len() - pos,
        {
            proof {
                assert(order@[pos as int] < i);
            }
            pos = pos + 1;
        }
        proof {
            assert forall|k: int| 0 <= k < order@.len() implies #[trigger] ks[order@[k] as int]
                == keys@[order@[k] as int] by {
                assert(order@[k] < i);
            }
            assert forall|b: int| pos <= b < order@.len() implies ks[order@[b] as int] < ki by {
                if b > pos {
                    assert(ks[order@[pos as int] as int] >= ks[order@[b] as int]);
                }
            }
            assert forall|a: int| 0 <= a < pos implies ks[order@[a] as int] >= ki by {
                assert(ks[order@[a] as int] == keys@[order@[a] as int]);
            }
        }
        let ghost old_order = order@;
        order.insert(pos, i);
        proof {
            assert(ks2 =~= ks.push(ki));
            lemma_insert_in_order(ks, old_order, pos as int, ki);
        }
        i = i + 1;
    }
    proof {
        assert(keys@.subrange(0, n as int) =~= keys@);
        lemma_newest_first_unique(keys@, order@, newest_first(keys@));
    }
    order
}

/// The `"timestamp"` member of a value, where it is a non-negative integer
/// (`value.get("timestamp")` then `as_u64`).
pub open spec fn timestamp_of(v: JsonView) -> Option<u64> {
    match v.get("timestamp"@) {
        Some(t) => t.as_u64(),
        None => None,
    }
}

/// The timestamp by which an entry is ordered (0 where it has none; such
/// an entry is only ever ordered alone).
pub open spec fn recency_key(v: JsonView) -> u64 {
    match timestamp_of(v) {
        Some(t) => t,
        None => 0,
    }
}

/// The timestamps of the members of an object.
pub open spec fn member_keys(ms: Seq<(Seq<char>, JsonView)>) -> Seq<u64> {
    Seq::new(ms.len(), |i: int| recency_key(ms[i].1))
}

/// The members can be ordered by timestamp: there is at most one, or each
/// one has a timestamp (the sort compares every entry when there are two
/// or more).
pub open spec fn comparable(ms: Seq<(Seq<char>, JsonView)>) -> bool {
    ms.len() >= 2 ==> forall|i: int| 0 <= i < ms.len() ==> #[trigger] timestamp_of(ms[i].1) is Some
}

/// The timestamp of a value.
pub fn timestamp(v: &Json) -> (t: Option<u64>)
    ensures
        t == timestamp_of(v@),
{
    match v.get("timestamp") {
        Some(Json::Number(JsonNumber::Unsigned(n))) => Some(*n),
        _ => None,
    }
}

/// The timestamps of the members of an object, or `None` where they cannot
/// be ordered.
pub fn member_timestamps(ms: &Vec<(String, Json)>) -> (keys: Option<Vec<u64>>)
    ensures
        keys is None <==> !comparable(members_view(ms@)),
        keys matches Some(k) ==> k@ == member_keys(members_view(ms@)),
{
    proof {
        lemma_members_view(ms@);
    }
    let ghost mv = members_view(ms@);
    let mut keys: Vec<u64> = Vec::new();
    let mut i: usize = 0;
    while i < ms.len()
        invariant
            0 <= i <= ms.len(),
            mv == members_view(ms@),
            mv.len() == ms@.len(),
            forall|k: int| 0 <= k < ms@.len() ==> #[trigger] mv[k] == (ms@[k].0@, ms@[k].1.view()),
            keys@.len() == i,
            forall|k: int| 0 <= k < i ==> keys@[k] == recency_key(#[trigger] mv[k].1),
            ms.len() >= 2 ==> forall|k: int| 0 <= k < i ==> #[trigger] timestamp_of(mv[k].1) is Some,
        decreases ms.len() - i,
    {
        match timestamp(&ms[i].1) {
            Some(t) => keys.push(t),
            None => {
                if ms.len() >= 2 {
                    proof {
                        assert(timestamp_of(mv[i as int].1) is None);
                    }
                    return None;
                }
                keys.push(0);
            },
        }
        i = i + 1;
    }
    proof {
        assert(keys@ =~= member_keys(mv));
    }
    Some(keys)
}

/// The first position from `j` on whose key is below `k` (or the end).
pub open spec fn first_below(keys: Seq<u64>, p: Seq<usize>, k: u64, j: int) -> int
    decreases p.len() - j,
{
    if j >= p.len() {
        p.len() as int
    } else if keys[p[j] as int] < k {
        j
    } else {
        first_below(keys, p, k, j + 1)
    }
}

proof fn lemma_first_below(keys: Seq<u64>, p: Seq<usize>, k: u64, j: int)
    requires
        0 <= j <= p.len(),
        is_newest_first(keys, p),
    ensures
        j <= first_below(keys, p, k, j) <= p.len(),
        forall|a: int| j <= a < first_below(keys, p, k, j) ==> keys[p[a] as int] >= k,
        forall|b: int| first_below(keys, p, k, j) <= b < p.len() ==> keys[p[b] as int] < k,
    decreases p.len() - j,
{
    if j < p.len() {
        if keys[p[j] as int] < k {
            assert forall|b: int| j <= b < p.len() implies keys[p[b] as int] < k by {
                if b > j {
                    assert(keys[p[j] as int] >= keys[p[b] as int]);
                }
            }
        } else {
            lemma_first_below(keys, p, k, j + 1);
        }
    }
}

/// Every list of timestamps has a newest-first order.
pub proof fn lemma_newest_first_exists(keys: Seq<u64>)
    requires
        keys.len() < usize::MAX,
    ensures
        is_newest_first(keys, newest_first(keys)),
    decreases keys.len(),
{
    if keys.len() == 0 {
        let p = Seq::<usize>::empty();
        assert(is_newest_first(keys, p));
    } else {
        let ks = keys.subrange(0, keys.len() - 1);
        let ki = keys[keys.len() - 1];
        lemma_newest_first_exists(ks);
        let p = newest_first(ks);
        lemma_first_below(ks, p, ki, 0);
        let pos = first_below(ks, p, ki, 0);
        lemma_insert_in_order(ks, p, pos, ki);
        assert(ks.push(ki) =~= keys);
        assert(is_newest_first(keys, p.insert(pos, ks.len() as usize)));
    }
}

/// Law (conversations are shown newest first): the entries of an object,
/// in the order in which the server shows them, are each entry once, by
/// decreasing timestamp, entries with equal timestamps in the order the
/// database gave them.
pub proof fn lemma_shown_newest_first(ms: Seq<(Seq<char>, JsonView)>)
    requires
        ms.len() < usize::MAX,
    ensures
        is_newest_first(member_keys(ms), newest_first(member_keys(ms))),
        comparable(ms) && ms.len() >= 2 ==> {
            let order = newest_first(member_keys(ms));
            forall|a: int, b: int| 0 <= a < b < order.len() ==>
                timestamp_of(ms[order[a] as int].1).unwrap() >= timestamp_of(ms[order[b] as int].1).unwrap()
        },
{
    lemma_newest_first_exists(member_keys(ms));
    let order = newest_first(member_keys(ms));
    if comparable(ms) && ms.len() >= 2 {
        assert forall|a: int, b: int| 0 <= a < b < order.len() implies
            timestamp_of(ms[order[a] as int].1).unwrap() >= timestamp_of(ms[order[b] as int].1).unwrap() by {
            assert(order[a] < ms.len() && order[b] < ms.len());
            assert(member_keys(ms)[order[a] as int] >= member_keys(ms)[order[b] as int]);
            assert(timestamp_of(ms[order[a] as int].1) is Some);
            assert(timestamp_of(ms[order[b] as int].1) is Some);
        }
    }
}

/// The timestamps turned around, so that the newest-first order of the
/// result is the oldest-first order of `keys` (ties still in stored order).
pub open spec fn flipped(keys: Seq<u64>) -> Seq<u64> {
    Seq::new(keys.len(), |i: int| (u64::MAX - keys[i]) as u64)
}

/// The oldest-first order of `keys`: increasing timestamp, ties in stored
/// order.
pub open spec fn oldest_first(keys: Seq<u64>) -> Seq<usize> {
    newest_first(flipped(keys))
}

/// Law (oldest first means increasing timestamp): the oldest-first order
/// lists every position once, by non-decreasing timestamp, positions with
/// equal timestamps in stored order; so a page that starts at 0 holds the
/// entries with the smallest timestamps.
pub proof fn lemma_oldest_first_ascending(keys: Seq<u64>)
    requires
        keys.len() < usize::MAX,
    ensures
        is_permutation(keys.len(), oldest_first(keys)),
        forall|a: int, b: int| 0 <= a < b < keys.len() ==>
            keys[#[trigger] oldest_first(keys)[a] as int] <= keys[#[trigger] oldest_first(keys)[b] as int],
        forall|a: int, b: int| 0 <= a < b < keys.len()
            && keys[oldest_first(keys)[a] as int] == keys[oldest_first(keys)[b] as int]
            ==> #[trigger] oldest_first(keys)[a] < #[trigger] oldest_first(keys)[b],
{
    let f = flipped(keys);
    lemma_newest_first_exists(f);
    let p = oldest_first(keys);
    assert forall|a: int, b: int| 0 <= a < b < keys.len() implies
        keys[#[trigger] p[a] as int] <= keys[#[trigger] p[b] as int] by {
        assert(p[a] < keys.len() && p[b] < keys.len());
        assert(f[p[a] as int] >= f[p[b] as int]);
    }
    assert forall|a: int, b: int| 0 <= a < b < keys.len()
        && keys[p[a] as int] == keys[p[b] as int] implies #[trigger] p[a] < #[trigger] p[b] by {
        assert(p[a] < keys.len() && p[b] < keys.len());
        assert(f[p[a] as int] == f[p[b] as int]);
    }
}

/// Law (a page is entries `n` through `m`): of a list of `n` entries, the
/// page from `start` to `end` starts at `start` (or at the end of the list,
/// where `start` is past it) and holds `end - start` entries wherever the
/// list reaches `end`; otherwise it runs to the end of the list.
pub proof fn lemma_page_is_n_through_m(n: nat, start: u32, end: u32)
    requires
        start <= end,
    ensures
        0 <= page_bounds(n, start, end).0 <= page_bounds(n, start, end).1 <= n,
        start <= n ==> page_bounds(n, start, end).0 == start,
        end <= n ==> page_bounds(n, start, end).1 - page_bounds(n, start, end).0 == end - start,
        n < end ==> page_bounds(n, start, end).1 == n,
        n <= start ==> page_bounds(n, start, end).0 == page_bounds(n, start, end).1,
{
}

/// The positions `start` up to `end` of a list of `n` entries, cut at its
/// end: `n` through `m`.
pub open spec fn page_bounds(n: nat, start: u32, end: u32) -> (int, int) {
    (
        if start <= n { start as int } else { n as int },
        if end <= n { end as int } else { n as int },
    )
}

/// The positions `start` up to `end` of a list of `n` entries, cut at its
/// end.
pub fn page(n: usize, start: u32, end: u32) -> (bounds: (usize, usize))
    requires
        start <= end,
    ensures
        bounds.0 as int == page_bounds(n as nat, start, end).0,
        bounds.1 as int == page_bounds(n as nat, start, end).1,
        bounds.0 <= bounds.1 <= n,
{
    let lo: usize = if (start as usize) <= n { start as usize } else { n };
    let hi: usize = if (end as usize) <= n { end as usize } else { n };
    (lo, hi)
}

/// Turns the timestamps around (see `flipped`).
pub fn flip(keys: &Vec<u64>) -> (out: Vec<u64>)
    ensures
        out@ == flipped(keys@),
{
    let mut out: Vec<u64> = Vec::new();
    let mut i: usize = 0;
    while i < keys.len()
        invariant
            0 <= i <= keys.len(),
            out@.len() == i,
            forall|k: int| 0 <= k < i ==> out@[k] == (u64::MAX - keys@[k]) as u64,
        decreases keys.len() - i,
    {
        out.push(u64::MAX - keys[i]);
        i = i + 1;
    }
    proof {
        assert(out@ =~= flipped(keys@));
    }
    out
}

} // verus!
