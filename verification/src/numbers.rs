use vstd::prelude::*;

verus! {

/// Proof and disproof numbers saturate at this value; it stands for a
/// position that cannot be proved (or disproved).
pub const INF: u32 = u32::MAX / 2;

/// Sum of a sequence of proof (or disproof) numbers.
pub open spec fn seq_sum(s: Seq<u32>) -> int
    decreases s.len(),
{
    if s.len() == 0 {
        0
    } else {
        seq_sum(s.drop_last()) + s.last()
    }
}

/// A number saturated at `INF`.
pub open spec fn capped(x: int) -> int {
    if x > INF {
        INF as int
    } else {
        x
    }
}

/// How many entries of `s` are at most `lim`.
pub open spec fn count_within(s: Seq<u32>, lim: u32) -> nat
    decreases s.len(),
{
    if s.len() == 0 {
        0
    } else {
        count_within(s.drop_last(), lim) + (if s.last() <= lim {
            1nat
        } else {
            0nat
        })
    }
}

/// The smallest of the first `n` entries (`n >= 1`), scanning from the front.
pub open spec fn min_prefix(s: Seq<u32>, n: int) -> u32
    decreases n,
{
    if n <= 1 {
        s[0]
    } else if s[n - 1] < min_prefix(s, n - 1) {
        s[n - 1]
    } else {
        min_prefix(s, n - 1)
    }
}

/// The smallest entry, or `INF` when there is none.
pub open spec fn seq_min(s: Seq<u32>) -> u32 {
    if s.len() == 0 {
        INF
    } else {
        min_prefix(s, s.len() as int)
    }
}

/// The position of the first smallest among the first `n` entries (`n >= 1`).
pub open spec fn first_min_prefix(s: Seq<u32>, n: int) -> int
    decreases n,
{
    if n <= 1 {
        0
    } else if s[n - 1] < s[first_min_prefix(s, n - 1)] {
        n - 1
    } else {
        first_min_prefix(s, n - 1)
    }
}

/// The position of the first smallest entry.
pub open spec fn first_min(s: Seq<u32>) -> int {
    first_min_prefix(s, s.len() as int)
}

pub proof fn lemma_seq_sum_facts(s: Seq<u32>)
    ensures
        seq_sum(s) >= 0,
        forall|i: int| 0 <= i < s.len() ==> #[trigger] s[i] <= seq_sum(s),
        seq_sum(s) == 0 ==> forall|i: int| 0 <= i < s.len() ==> #[trigger] s[i] == 0,
    decreases s.len(),
{
    if s.len() > 0 {
        lemma_seq_sum_facts(s.drop_last());
        assert forall|i: int| 0 <= i < s.len() implies #[trigger] s[i] <= seq_sum(s) by {
            if i < s.len() - 1 {
                assert(s[i] == s.drop_last()[i]);
            }
        }
        if seq_sum(s) == 0 {
            assert forall|i: int| 0 <= i < s.len() implies #[trigger] s[i] == 0 by {
                if i < s.len() - 1 {
                    assert(s[i] == s.drop_last()[i]);
                }
            }
        }
    }
}

pub proof fn lemma_seq_sum_update(s: Seq<u32>, i: int, v: u32)
    requires
        0 <= i < s.len(),
    ensures
        seq_sum(s.update(i, v)) == seq_sum(s) - s[i] + v,
    decreases s.len(),
{
    if i == s.len() - 1 {
        assert(s.update(i, v).drop_last() =~= s.drop_last());
    } else {
        lemma_seq_sum_update(s.drop_last(), i, v);
        assert(s.update(i, v).drop_last() =~= s.drop_last().update(i, v));
    }
}

pub proof fn lemma_count_within_update(s: Seq<u32>, lim: u32, i: int, v: u32)
    requires
        0 <= i < s.len(),
    ensures
        count_within(s.update(i, v), lim) == count_within(s, lim) - (if s[i] <= lim {
            1int
        } else {
            0int
        }) + (if v <= lim {
            1int
        } else {
            0int
        }),
    decreases s.len(),
{
    if i == s.len() - 1 {
        assert(s.update(i, v).drop_last() =~= s.drop_last());
    } else {
        lemma_count_within_update(s.drop_last(), lim, i, v);
        assert(s.update(i, v).drop_last() =~= s.drop_last().update(i, v));
    }
}

/// The smallest entry, or `INF` when there is none.
pub(crate) fn min_value(v: &Vec<u32>) -> (m: u32)
    ensures
        m == seq_min(v@),
        v.len() == 0 ==> m == INF,
        v.len() > 0 ==> exists|i: int| 0 <= i < v.len() && m == #[trigger] v@[i],
        forall|i: int| 0 <= i < v.len() ==> m <= #[trigger] v@[i],
{
    if v.len() == 0 {
        return INF;
    }
    let mut m = v[0];
    let mut i: usize = 1;
    while i < v.len()
        invariant
            1 <= i <= v.len(),
            m == min_prefix(v@, i as int),
            exists|j: int| 0 <= j < v.len() && m == #[trigger] v@[j],
            forall|j: int| 0 <= j < i ==> m <= #[trigger] v@[j],
        decreases v.len() - i,
    {
        if v[i] < m {
            m = v[i];
        }
        i += 1;
    }
    m
}

/// The position of the first smallest entry.
pub(crate) fn first_min_index(v: &Vec<u32>) -> (k: usize)
    requires
        v.len() > 0,
    ensures
        k < v.len(),
        k == first_min(v@),
        forall|j: int| 0 <= j < v.len() ==> v@[k as int] <= #[trigger] v@[j],
        forall|j: int| 0 <= j < k ==> v@[k as int] < #[trigger] v@[j],
{
    let mut k: usize = 0;
    let mut i: usize = 1;
    while i < v.len()
        invariant
            1 <= i <= v.len(),
            k < i,
            k == first_min_prefix(v@, i as int),
            forall|j: int| 0 <= j < i ==> v@[k as int] <= #[trigger] v@[j],
            forall|j: int| 0 <= j < k ==> v@[k as int] < #[trigger] v@[j],
        decreases v.len() - i,
    {
        if v[i] < v[k] {
            k = i;
        }
        i += 1;
    }
    k
}

/// Sum of the entries, saturated at `INF`, leaving out position `skip`
/// (no position is left out when `skip` is past the end).
pub(crate) fn capped_sum_except(v: &Vec<u32>, skip: usize) -> (total: u32)
    ensures
        total == capped(seq_sum(v@) - (if skip < v.len() {
            v@[skip as int] as int
        } else {
            0int
        })),
{
    let mut acc: u32 = 0;
    let mut i: usize = 0;
    while i < v.len()
        invariant
            i <= v.len(),
            acc as int == (if seq_sum(v@.take(i as int)) - (if skip < i {
                v@[skip as int] as int
            } else {
                0int
            }) > u32::MAX {
                u32::MAX as int
            } else {
                seq_sum(v@.take(i as int)) - (if skip < i {
                    v@[skip as int] as int
                } else {
                    0int
                })
            }),
        decreases v.len() - i,
    {
        assert(v@.take(i + 1).drop_last() =~= v@.take(i as int));
        if i != skip {
            acc = acc.saturating_add(v[i]);
        }
        i += 1;
    }
    assert(v@.take(v.len() as int) =~= v@);
    if acc > INF {
        INF
    } else {
        acc
    }
}

/// Sum of the entries, saturated at `INF`.
pub(crate) fn capped_sum(v: &Vec<u32>) -> (total: u32)
    ensures
        total == capped(seq_sum(v@)),
{
    capped_sum_except(v, v.len())
}

} // verus!
