//! Newest-first sorting of entries. The comparator treats a pair as equal
//! whenever either timestamp is missing, so the sort promises: a permutation,
//! source order kept for every pair the comparator calls equal, and a fully
//! sorted result whenever every entry has a timestamp.

use vstd::prelude::*;
use crate::entry::Entry;

verus! {

/// The comparator's "equal": either timestamp missing, or equal timestamps.
pub open spec fn time_eq(a: Entry, b: Entry) -> bool {
    !(a.has_mtime && b.has_mtime) || a.update_time == b.update_time
}

/// The comparator's "greater": both timestamps present and `b` strictly
/// newer, so `a` belongs after `b` under newest-first order.
pub open spec fn time_after(a: Entry, b: Entry) -> bool {
    a.has_mtime && b.has_mtime && b.update_time > a.update_time
}

pub open spec fn all_have_mtime(s: Seq<Entry>) -> bool {
    forall|k: int| 0 <= k < s.len() ==> s[k].has_mtime
}

/// `p` maps result positions to source positions, bijectively.
pub open spec fn is_perm(p: Seq<int>, n: nat) -> bool {
    &&& p.len() == n
    &&& forall|k: int| 0 <= k < n ==> 0 <= #[trigger] p[k] < n
    &&& forall|k1: int, k2: int| 0 <= k1 < k2 < n ==> p[k1] != p[k2]
}

/// What the sort guarantees, with `p` the witness permutation.
pub open spec fn sort_post(pre: Seq<Entry>, post: Seq<Entry>, p: Seq<int>) -> bool {
    &&& is_perm(p, pre.len())
    &&& post.len() == pre.len()
    &&& forall|k: int| 0 <= k < post.len() ==> post[k] == pre[#[trigger] p[k]]
    &&& forall|k1: int, k2: int|
        0 <= k1 < k2 < post.len() && time_eq(post[k1], post[k2]) ==> p[k1] < p[k2]
    &&& all_have_mtime(pre) ==> forall|k1: int, k2: int|
        0 <= k1 < k2 < post.len() ==> post[k1].update_time >= post[k2].update_time
}

/// Moving the element at `i` down to position `j`, pointwise.
proof fn lemma_shift_insert<A>(s: Seq<A>, i: int, j: int)
    requires
        0 <= j <= i < s.len(),
    ensures
        s.remove(i).insert(j, s[i]).len() == s.len(),
        forall|k: int| 0 <= k < j ==> #[trigger] s.remove(i).insert(j, s[i])[k] == s[k],
        s.remove(i).insert(j, s[i])[j] == s[i],
        forall|k: int| j < k <= i ==> #[trigger] s.remove(i).insert(j, s[i])[k] == s[k - 1],
        forall|k: int| i < k < s.len() ==> #[trigger] s.remove(i).insert(j, s[i])[k] == s[k],
{
    s.remove_ensures(i);
    s.remove(i).insert_ensures(j, s[i]);
    let sr = s.remove(i);
    let s2 = sr.insert(j, s[i]);
    assert forall|k: int| j < k <= i implies #[trigger] s2[k] == s[k - 1] by {
        assert(s2[(k - 1) + 1] == sr[k - 1]);
    }
    assert forall|k: int| i < k < s.len() implies #[trigger] s2[k] == s[k] by {
        assert(s2[(k - 1) + 1] == sr[k - 1]);
    }
}

fn time_after_exec(a: &Entry, b: &Entry) -> (r: bool)
    ensures
        r == time_after(*a, *b),
{
    a.has_mtime && b.has_mtime && b.update_time > a.update_time
}

/// Sorts the entries newest first with the stable, equal-on-missing
/// comparator, and returns the witness permutation.
pub fn sort_by_time(entries: &mut Vec<Entry>) -> (p: Ghost<Seq<int>>)
    ensures
        sort_post(old(entries)@, final (entries)@, p@),
{
    let ghost pre = entries@;
    let n = entries.len();
    let ghost mut p: Seq<int> = Seq::new(pre.len(), |k: int| k);
    let mut i: usize = 1;
    while i < n
        invariant
            1 <= i,
            i <= n || n <= 1,
            n == entries@.len(),
            pre.len() == n,
            is_perm(p, n as nat),
            forall|k: int| 0 <= k < n ==> entries@[k] == pre[#[trigger] p[k]],
            forall|k1: int, k2: int|
                0 <= k1 < k2 < n && time_eq(entries@[k1], entries@[k2]) ==> p[k1] < p[k2],
            all_have_mtime(pre) ==> forall|k1: int, k2: int|
                0 <= k1 < k2 < i && k2 < n ==> entries@[k1].update_time
                    >= entries@[k2].update_time,
        decreases n - i,
    {
        let mut j: usize = i;
        let mut scanning = true;
        while scanning && j > 0
            invariant
                0 <= j <= i < n,
                n == entries@.len(),
                forall|k: int| j <= k < i ==> time_after(entries@[k], entries@[i as int]),
                !scanning ==> j >= 1 && !time_after(
                    entries@[j - 1],
                    entries@[i as int],
                ),
            decreases j + (if scanning {
                1int
            } else {
                0int
            }),
        {
            let a = &entries[j - 1];
            let b = &entries[i];
            if time_after_exec(a, b) {
                j = j - 1;
            } else {
                scanning = false;
            }
        }
        if j < i {
            let ghost s_old = entries@;
            let ghost p_old = p;
            let x = entries.remove(i);
            entries.insert(j, x);
            proof {
                p = p_old.remove(i as int).insert(j as int, p_old[i as int]);
                lemma_shift_insert(s_old, i as int, j as int);
                lemma_shift_insert(p_old, i as int, j as int);
                let s2 = entries@;
                assert(s2 == s_old.remove(i as int).insert(j as int, s_old[i as int]));
                // pointwise: position k of the new order came from old position oi(k)
                let oi = |k: int|
                    if k < j {
                        k
                    } else if k == j {
                        i as int
                    } else if k <= i {
                        k - 1
                    } else {
                        k
                    };
                assert forall|k: int| 0 <= k < n implies s2[k] == s_old[oi(k)] && p[k]
                    == p_old[oi(k)] by {}
                assert forall|k1: int, k2: int| 0 <= k1 < k2 < n implies p[k1] != p[k2] by {
                    assert(p[k1] == p_old[oi(k1)]);
                    assert(p[k2] == p_old[oi(k2)]);
                }
                assert(is_perm(p, n as nat));
                assert forall|k: int| 0 <= k < n implies s2[k] == pre[#[trigger] p[k]] by {
                    assert(s_old[oi(k)] == pre[p_old[oi(k)]]);
                }
                assert forall|k1: int, k2: int|
                    0 <= k1 < k2 < n && time_eq(s2[k1], s2[k2]) implies p[k1] < p[k2] by {
                    if oi(k1) < oi(k2) {
                        assert(time_eq(s_old[oi(k1)], s_old[oi(k2)]));
                    } else {
                        // only a crossed pair: k1 == j against one of the
                        // positions the element moved past, never comparator-equal
                        assert(k1 == j && j < k2 <= i);
                        assert(time_after(s_old[k2 - 1], s_old[i as int]));
                        assert(false);
                    }
                }
                if all_have_mtime(pre) {
                    assert forall|k1: int, k2: int| 0 <= k1 < k2 < i + 1 && k2 < n implies
                        s2[k1].update_time >= s2[k2].update_time by {
                        assert(s2[k1] == s_old[oi(k1)]);
                        assert(s2[k2] == s_old[oi(k2)]);
                        if j >= 1 {
                            assert(!time_after(s_old[j - 1], s_old[i as int]));
                            assert(s_old[j - 1] == pre[p_old[j - 1]]);
                            assert(s_old[i as int] == pre[p_old[i as int]]);
                            assert(s_old[j - 1].has_mtime);
                            assert(s_old[i as int].has_mtime);
                        }
                        if k2 == j {
                            assert(time_after(s_old[j as int], s_old[i as int]));
                        }
                    }
                }
            }
        } else {
            proof {
                if all_have_mtime(pre) {
                    assert(!time_after(entries@[i - 1], entries@[i as int]));
                    assert(entries@[i - 1] == pre[p[i - 1]]);
                    assert(entries@[i as int] == pre[p[i as int]]);
                    assert(entries@[i - 1].has_mtime && entries@[i as int].has_mtime);
                    assert forall|k1: int, k2: int| 0 <= k1 < k2 < i + 1 && k2 < n implies
                        entries@[k1].update_time >= entries@[k2].update_time by {}
                }
            }
        }
        i = i + 1;
    }
    Ghost(p)
}

} // verus!
