use vstd::prelude::*;

verus! {

/// Position `a` ranks before position `b`: a higher key, or an equal key and
/// an earlier position.
pub open spec fn before(keys: Seq<u32>, a: int, b: int) -> bool {
    keys[a] > keys[b] || (keys[a] == keys[b] && a < b)
}

pub open spec fn min(a: int, b: int) -> int {
    if a < b {
        a
    } else {
        b
    }
}

/// What `top_k` returns on the first `n` keys: the positions below `n` that
/// rank first, at most `k` of them, in ranking order.
pub open spec fn is_top(keys: Seq<u32>, n: int, k: int, r: Seq<usize>) -> bool {
    &&& r.len() == min(k, n)
    &&& forall|i: int| 0 <= i < r.len() ==> #[trigger] r[i] < n
    &&& forall|i: int, j: int| 0 <= i < j < r.len() ==> before(keys, #[trigger] r[i] as int, #[trigger] r[j] as int)
    &&& forall|p: int, i: int|
        0 <= p < n && !r.contains(p as usize) && 0 <= i < r.len() ==> #[trigger] before(keys, r[i] as int, p)
}

/// The positions of the `k` highest keys, highest first; of equal keys the
/// earlier position comes first. Each position is considered once, and the
/// list never grows past `k + 1` entries.
pub fn top_k(keys: &Vec<u32>, k: usize) -> (r: Vec<usize>)
    requires
        k >= 1,
    ensures
        is_top(keys@, keys@.len() as int, k as int, r@),
{
    let mut r: Vec<usize> = Vec::new();
    let mut p: usize = 0;
    while p < keys.len()
        invariant
            p <= keys@.len(),
            k >= 1,
            is_top(keys@, p as int, k as int, r@),
            r@.len() < k ==> forall|q: int| 0 <= q < p ==> #[trigger] r@.contains(q as usize),
        decreases keys@.len() - p,
    {
        let kp = keys[p];
        let mut j: usize = 0;
        while j < r.len() && keys[r[j]] >= kp
            invariant
                j <= r@.len(),
                kp == keys@[p as int],
                is_top(keys@, p as int, k as int, r@),
                p < keys@.len(),
                r@.len() < k ==> forall|q: int| 0 <= q < p ==> #[trigger] r@.contains(q as usize),
                forall|t: int| 0 <= t < j ==> keys@[#[trigger] r@[t] as int] >= kp,
            decreases r@.len() - j,
        {
            j = j + 1;
        }
        let ghost old_r = r@;
        proof {
            // positions after `j` hold lower keys than `p`
            assert forall|t: int| j <= t < old_r.len() implies keys@[#[trigger] old_r[t] as int] < kp by {
                if j < t {
                    assert(before(keys@, old_r[j as int] as int, old_r[t] as int));
                }
            }
        }
        r.insert(j, p);
        let ghost mid = r@;
        assert(mid =~= old_r.insert(j as int, p));
        if r.len() > k {
            r.pop();
        }
        proof {
            let n = r@;
            assert(n.len() == min(k as int, p + 1));
            if n.len() < k {
                assert(n == mid);
                assert forall|q: int| 0 <= q < p + 1 implies #[trigger] n.contains(q as usize) by {
                    if q == p {
                        assert(n[j as int] == p);
                    } else {
                        assert(old_r.contains(q as usize));
                        let t = choose|t: int| 0 <= t < old_r.len() && old_r[t] == q;
                        if t < j {
                            assert(n[t] == q);
                        } else {
                            assert(n[t + 1] == q);
                        }
                    }
                }
            }
            assert forall|i: int| 0 <= i < n.len() implies #[trigger] n[i] < p + 1 by {
                assert(n[i] == mid[i]);
            }
            assert forall|a: int, b: int| 0 <= a < b < n.len() implies before(
                keys@,
                #[trigger] n[a] as int,
                #[trigger] n[b] as int,
            ) by {
                assert(n[a] == mid[a] && n[b] == mid[b]);
                if a < j && b > j {
                    assert(mid[a] == old_r[a] && mid[b] == old_r[b - 1]);
                    if b - 1 > a {
                        assert(before(keys@, old_r[a] as int, old_r[b - 1] as int));
                    }
                } else if a > j {
                    assert(mid[a] == old_r[a - 1] && mid[b] == old_r[b - 1]);
                    assert(before(keys@, old_r[a - 1] as int, old_r[b - 1] as int));
                } else if b < j {
                    assert(mid[a] == old_r[a] && mid[b] == old_r[b]);
                } else if b == j {
                    assert(mid[a] == old_r[a]);
                    assert(old_r[a] < p);
                } else {
                    assert(mid[b] == old_r[b - 1]);
                }
            }
            assert forall|q: int, i: int|
                0 <= q < p + 1 && !n.contains(q as usize) && 0 <= i < n.len() implies #[trigger] before(
                keys@,
                n[i] as int,
                q,
            ) by {
                assert(n[i] == mid[i]);
                assert(mid.len() <= k + 1);
                if mid.len() <= k {
                    assert(n == mid);
                    if q == p {
                        assert(n[j as int] == p);
                    } else if old_r.contains(q as usize) {
                        let t = choose|t: int| 0 <= t < old_r.len() && old_r[t] == q;
                        if t < j {
                            assert(n[t] == q);
                        } else {
                            assert(n[t + 1] == q);
                        }
                    }
                }
                if q == p {
                    // `p` was the one dropped
                    assert(mid.len() == k + 1);
                    assert(mid[k as int] == p) by {
                        if mid[k as int] != p {
                            assert(n.contains(p as usize) == false);
                            assert(mid[j as int] == p);
                            assert(n[j as int] == p);
                        }
                    }
                    assert(j == k);
                    assert(mid[i] == old_r[i]);
                    assert(old_r[i] < p);
                } else {
                    if old_r.contains(q as usize) {
                        let t = choose|t: int| 0 <= t < old_r.len() && old_r[t] == q;
                        // `q` was in the list and has been dropped: it was last
                        assert(mid.len() == k + 1);
                        if t < j {
                            assert(mid[t] == q);
                            assert(n[t] == q);
                        } else {
                            assert(mid[t + 1] == q);
                            if t + 1 < k {
                                assert(n[t + 1] == q);
                            }
                            assert(t + 1 == k);
                        }
                        assert(t == k - 1);
                        if i < j {
                            assert(mid[i] == old_r[i]);
                            assert(before(keys@, old_r[i] as int, old_r[t] as int));
                        } else if i > j {
                            assert(mid[i] == old_r[i - 1]);
                            assert(before(keys@, old_r[i - 1] as int, old_r[t] as int));
                        } else {
                            assert(keys@[old_r[t] as int] < kp);
                        }
                    } else {
                        assert(q < p);
                        if i < j {
                            assert(mid[i] == old_r[i]);
                        } else if i == j {
                            assert(old_r.len() > 0) by {
                                assert(old_r.len() == min(k as int, p as int));
                            }
                            if j < old_r.len() {
                                assert(before(keys@, old_r[j as int] as int, q));
                                assert(keys@[old_r[j as int] as int] < kp);
                            } else {
                                assert(old_r.len() < k);
                                assert(old_r.contains(q as usize));
                            }
                        } else {
                            assert(mid[i] == old_r[i - 1]);
                        }
                    }
                }
            }
        }
        p = p + 1;
    }
    r
}

} // verus!
