use vstd::prelude::*;

verus! {

/// Whether `a` and `b` are the same or one slip apart: one byte changed, one
/// byte left out, or one byte too many.
pub open spec fn alike(a: Seq<u8>, b: Seq<u8>) -> bool {
    ||| a == b
    ||| a.len() == b.len() && exists|i: int| 0 <= i < a.len() && #[trigger] a.update(i, b[i]) == b
    ||| exists|i: int| 0 <= i < b.len() && #[trigger] b.remove(i) == a
    ||| exists|i: int| 0 <= i < a.len() && #[trigger] a.remove(i) == b
}

/// Whether `a` from `i` on is `b` from `j` on.
fn same_from(a: &[u8], i: usize, b: &[u8], j: usize) -> (r: bool)
    requires
        i <= a@.len(),
        j <= b@.len(),
    ensures
        r == (a@.subrange(i as int, a@.len() as int) == b@.subrange(j as int, b@.len() as int)),
{
    if a.len() - i != b.len() - j {
        assert(a@.subrange(i as int, a@.len() as int).len() != b@.subrange(
            j as int,
            b@.len() as int,
        ).len());
        return false;
    }
    let n = a.len() - i;
    let ghost rest_a = a@.subrange(i as int, a@.len() as int);
    let ghost rest_b = b@.subrange(j as int, b@.len() as int);
    let mut k: usize = 0;
    while k < n
        invariant
            k <= n,
            i <= a@.len() <= usize::MAX,
            j <= b@.len() <= usize::MAX,
            n == a@.len() - i,
            n == b@.len() - j,
            rest_a == a@.subrange(i as int, a@.len() as int),
            rest_b == b@.subrange(j as int, b@.len() as int),
            forall|m: int| 0 <= m < k ==> rest_a[m] == rest_b[m],
        decreases n - k,
    {
        if a[i + k] != b[j + k] {
            assert(rest_a[k as int] != rest_b[k as int]);
            return false;
        }
        k += 1;
    }
    assert(rest_a =~= rest_b);
    true
}

/// Whether taking one byte out of `long` can give `short`, when the two
/// agree on their first `p` bytes and part ways there.
proof fn lemma_cut(short: Seq<u8>, long: Seq<u8>, p: int)
    requires
        0 <= p <= short.len(),
        p < long.len(),
        forall|j: int| 0 <= j < p ==> short[j] == long[j],
        p < short.len() ==> short[p] != long[p],
    ensures
        (exists|i: int| 0 <= i < long.len() && #[trigger] long.remove(i) == short) <==> long.subrange(
            p + 1,
            long.len() as int,
        ) == short.subrange(p, short.len() as int),
{
    let tail_long = long.subrange(p + 1, long.len() as int);
    let tail_short = short.subrange(p, short.len() as int);
    if tail_long == tail_short {
        assert(tail_long.len() == tail_short.len());
        assert forall|j: int| 0 <= j < short.len() implies long.remove(p)[j] == short[j] by {
            if j >= p {
                assert(tail_long[j - p] == tail_short[j - p]);
            }
        }
        assert(long.remove(p) =~= short);
    }
    if exists|i: int| 0 <= i < long.len() && #[trigger] long.remove(i) == short {
        let i = choose|i: int| 0 <= i < long.len() && #[trigger] long.remove(i) == short;
        let cut = long.remove(i);
        assert(short.len() + 1 == long.len());
        if i < p {
            // From `i` up to `p` the long run repeats one byte.
            assert forall|j: int| i <= j < p implies long[j] == #[trigger] long[j + 1] by {
                assert(cut[j] == long[j + 1]);
            }
        } else if i > p {
            assert(cut[p] == long[p]);
            assert(false);
        }
        assert forall|j: int| 0 <= j < tail_short.len() implies tail_long[j] == tail_short[j] by {
            assert(cut[p + j] == long[p + j + 1]);
        }
        assert(tail_long =~= tail_short);
    }
}

/// `alike` for code.
pub fn close(a: &[u8], b: &[u8]) -> (r: bool)
    ensures
        r == alike(a@, b@),
{
    let mut p: usize = 0;
    while p < a.len() && p < b.len() && a[p] == b[p]
        invariant
            p <= a@.len(),
            p <= b@.len(),
            forall|j: int| 0 <= j < p ==> a@[j] == b@[j],
        decreases a@.len() - p,
    {
        p += 1;
    }
    if p == a.len() && p == b.len() {
        assert(a@ =~= b@);
        return true;
    }
    assert(a@ != b@) by {
        if a@.len() == b@.len() {
            assert(a@[p as int] != b@[p as int]);
        }
    }
    if a.len() == b.len() {
        let r = same_from(a, p + 1, b, p + 1);
        proof {
            let rest_a = a@.subrange(p + 1, a@.len() as int);
            let rest_b = b@.subrange(p + 1, b@.len() as int);
            if r {
                assert forall|j: int| 0 <= j < a@.len() implies a@.update(p as int, b@[p as int])[j]
                    == b@[j] by {
                    if j > p {
                        assert(rest_a[j - p - 1] == rest_b[j - p - 1]);
                    }
                }
                assert(a@.update(p as int, b@[p as int]) =~= b@);
            }
            if exists|i: int| 0 <= i < a@.len() && #[trigger] a@.update(i, b@[i]) == b@ {
                let i = choose|i: int| 0 <= i < a@.len() && #[trigger] a@.update(i, b@[i]) == b@;
                let changed = a@.update(i, b@[i]);
                if i != p {
                    assert(changed[p as int] == a@[p as int]);
                    assert(false);
                }
                assert forall|j: int| 0 <= j < rest_a.len() implies rest_a[j] == rest_b[j] by {
                    assert(changed[p + 1 + j] == a@[p + 1 + j]);
                }
                assert(rest_a =~= rest_b);
            }
            assert forall|i: int| 0 <= i < b@.len() implies #[trigger] b@.remove(i) != a@ by {
                assert(b@.remove(i).len() != a@.len());
            }
            assert forall|i: int| 0 <= i < a@.len() implies #[trigger] a@.remove(i) != b@ by {
                assert(a@.remove(i).len() != b@.len());
            }
        }
        return r;
    }
    if a.len() < b.len() && b.len() - a.len() == 1 {
        let r = same_from(b, p + 1, a, p);
        proof {
            lemma_cut(a@, b@, p as int);
            assert forall|i: int| 0 <= i < a@.len() implies #[trigger] a@.remove(i) != b@ by {
                assert(a@.remove(i).len() != b@.len());
            }
        }
        return r;
    }
    if b.len() < a.len() && a.len() - b.len() == 1 {
        let r = same_from(a, p + 1, b, p);
        proof {
            lemma_cut(b@, a@, p as int);
            assert forall|i: int| 0 <= i < b@.len() implies #[trigger] b@.remove(i) != a@ by {
                assert(b@.remove(i).len() != a@.len());
            }
        }
        return r;
    }
    proof {
        assert forall|i: int| 0 <= i < b@.len() implies #[trigger] b@.remove(i) != a@ by {
            assert(b@.remove(i).len() == b@.len() - 1);
        }
        assert forall|i: int| 0 <= i < a@.len() implies #[trigger] a@.remove(i) != b@ by {
            assert(a@.remove(i).len() == a@.len() - 1);
        }
    }
    false
}

} // verus!
