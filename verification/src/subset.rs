//! Assignment of backend subsets to clients.
//!
//! With the deterministic policy, clients are taken in rounds. The clients of a round
//! cut one shuffle of the backends, seeded with the round's number, into consecutive
//! slices, so that no two of them share a backend.

use crate::rng::{seeded_shuffle, seeded_shuffle_of, shuffle, shuffles, RunRng};
use rand::rngs::StdRng;
use vstd::prelude::*;

verus! {

#[derive(Clone, Copy, Debug, PartialEq, Eq, Structural)]
pub enum SubsetPolicyKind {
    Deterministic,
    Random,
}

impl Default for SubsetPolicyKind {
    fn default() -> (r: SubsetPolicyKind)
        ensures
            r == SubsetPolicyKind::Deterministic,
    {
        SubsetPolicyKind::Deterministic
    }
}

/// The number of backends a client gets: all of them for size 0, else the size asked
/// for, at least 1 and at most `n`.
pub open spec fn subset_len(n: nat, subset_size: nat) -> nat {
    if subset_size == 0 {
        n
    } else if subset_size <= n {
        subset_size
    } else if n > 0 {
        n
    } else {
        1
    }
}

/// The indices `0..n`.
pub open spec fn indices(n: nat) -> Seq<usize> {
    Seq::new(n, |i: int| i as usize)
}

/// The subset of `client` among `n` backends, cut into slices of `k`.
pub open spec fn slice_of(n: nat, client: nat, k: nat) -> Seq<usize> {
    if k >= n {
        indices(n)
    } else {
        let per_round = n / k;
        let round = client / per_round;
        let slot = client % per_round;
        seeded_shuffle_of(round as u64, indices(n)).subrange(
            (slot * k) as int,
            (slot * k + k) as int,
        )
    }
}

/// The backends of `client` under the deterministic policy.
pub open spec fn deterministic_subset_of(n: nat, client: nat, subset_size: nat) -> Seq<usize> {
    slice_of(n, client, subset_len(n, subset_size))
}

/// How many subsets `n` backends are split into.
pub open spec fn subset_count(n: nat, subset_size: nat) -> nat {
    n / subset_len(n, subset_size)
}

/// The indices `0..n` in some order.
pub open spec fn is_arrangement(s: Seq<usize>, n: nat) -> bool {
    s.to_multiset() == indices(n).to_multiset()
}

/// Some subset holds `server`.
pub open spec fn in_some_subset(subsets: Seq<Vec<usize>>, server: usize) -> bool {
    exists|lb: int| 0 <= lb < subsets.len() && (#[trigger] subsets[lb])@.contains(server)
}

/// Two clients served from the same shuffle, in different slots of it.
pub open spec fn same_round(n: nat, k: nat, a: nat, b: nat) -> bool {
    &&& 0 < k < n
    &&& a / (n / k) == b / (n / k)
    &&& a % (n / k) != b % (n / k)
}

/// No index occurs in both.
pub open spec fn disjoint(a: Seq<usize>, b: Seq<usize>) -> bool {
    forall|i: int, j: int|
        #![trigger a[i], b[j]]
        0 <= i < a.len() && 0 <= j < b.len() ==> a[i] != b[j]
}

/// Distinct indices below `n`.
pub open spec fn distinct_below(s: Seq<usize>, n: nat) -> bool {
    &&& s.no_duplicates()
    &&& forall|i: int| 0 <= i < s.len() ==> (#[trigger] s[i]) < n
}

/// The number of backends a client gets out of `n`.
pub fn subset_size_k(n: usize, subset_size: u32) -> (k: usize)
    ensures
        k == subset_len(n as nat, subset_size as nat),
{
    if subset_size == 0 {
        n
    } else {
        let size: usize = subset_size as usize;
        if size <= n {
            size
        } else if n > 0 {
            n
        } else {
            1
        }
    }
}

fn all_indices(n: usize) -> (v: Vec<usize>)
    ensures
        v@ == indices(n as nat),
{
    let mut v: Vec<usize> = Vec::new();
    let mut i: usize = 0;
    while i < n
        invariant
            i <= n,
            v@ == indices(i as nat),
        decreases n - i,
    {
        v.push(i);
        i += 1;
        assert(v@ =~= indices(i as nat));
    }
    v
}

pub proof fn lemma_arrangement_of_indices(s: Seq<usize>, n: usize)
    requires
        is_arrangement(s, n as nat),
    ensures
        s.len() == n,
        distinct_below(s, n as nat),
        forall|i: usize| i < n ==> #[trigger] s.contains(i),
{
    let base = indices(n as nat);
    s.to_multiset_ensures();
    base.to_multiset_ensures();
    assert(base.no_duplicates());
    base.lemma_multiset_has_no_duplicates();
    s.lemma_multiset_has_no_duplicates_conv();
    assert forall|i: int| 0 <= i < s.len() implies (#[trigger] s[i]) < n by {
        assert(s.contains(s[i]));
        assert(base.to_multiset().count(s[i]) > 0);
        assert(base.contains(s[i]));
    }
    assert forall|i: usize| i < n implies #[trigger] s.contains(i) by {
        assert(base[i as int] == i);
        assert(base.contains(i));
        assert(base.to_multiset().count(i) > 0);
        assert(s.to_multiset().count(i) > 0);
    }
}

proof fn lemma_slots_apart(n: nat, k: nat, a: nat, b: nat)
    requires
        0 < k <= n,
        a < n / k,
        b < n / k,
    ensures
        a * k + k <= n,
        b * k + k <= n,
        a < b ==> a * k + k <= b * k,
{
    vstd::arithmetic::div_mod::lemma_fundamental_div_mod(n as int, k as int);
    assert(a * k + k <= n) by (nonlinear_arith)
        requires
            a + 1 <= n / k,
            n == k * (n / k) + n % k,
            0 <= n % k,
            0 < k,
    ;
    assert(b * k + k <= n) by (nonlinear_arith)
        requires
            b + 1 <= n / k,
            n == k * (n / k) + n % k,
            0 <= n % k,
            0 < k,
    ;
    if a < b {
        assert(a * k + k <= b * k) by (nonlinear_arith)
            requires
                a + 1 <= b,
                0 < k,
        ;
    }
}

/// Two clients of one round share no backend, if the round's shuffle is one of the
/// indices.
pub proof fn lemma_same_round_disjoint(n: nat, k: nat, a: nat, b: nat)
    requires
        same_round(n, k, a, b),
        seeded_shuffle_of((a / (n / k)) as u64, indices(n)).len() == n,
        seeded_shuffle_of((a / (n / k)) as u64, indices(n)).no_duplicates(),
    ensures
        disjoint(slice_of(n, a, k), slice_of(n, b, k)),
{
    let per_round = n / k;
    let shuffled = seeded_shuffle_of((a / per_round) as u64, indices(n));
    vstd::arithmetic::div_mod::lemma_div_non_zero(n as int, k as int);
    vstd::arithmetic::div_mod::lemma_mod_bound(a as int, per_round as int);
    vstd::arithmetic::div_mod::lemma_mod_bound(b as int, per_round as int);
    let sa = a % per_round;
    let sb = b % per_round;
    lemma_slots_apart(n, k, sa, sb);
    lemma_slots_apart(n, k, sb, sa);
    let left = slice_of(n, a, k);
    let right = slice_of(n, b, k);
    assert forall|i: int, j: int|
        #![trigger left[i], right[j]]
        0 <= i < left.len() && 0 <= j < right.len() implies left[i] != right[j] by {
        assert(left[i] == shuffled[sa * k + i]);
        assert(right[j] == shuffled[sb * k + j]);
    }
}

/// The backends of `client` under the deterministic policy, cut into slices of `k`.
/// A function of its arguments, with distinct backends, none of which any other client
/// of the same round has.
pub fn deterministic_subset(n: usize, client_id: usize, k: usize) -> (r: Vec<usize>)
    requires
        k > 0 || n == 0,
    ensures
        r@ == slice_of(n as nat, client_id as nat, k as nat),
        r@.len() == if k < n {
            k
        } else {
            n
        },
        distinct_below(r@, n as nat),
        forall|other: nat|
            #![trigger slice_of(n as nat, other, k as nat)]
            same_round(n as nat, k as nat, client_id as nat, other) ==> disjoint(
                r@,
                slice_of(n as nat, other, k as nat),
            ),
        k < n ==> is_arrangement(
            seeded_shuffle_of(
                (client_id as nat / (n as nat / k as nat)) as u64,
                indices(n as nat),
            ),
            n as nat,
        ),
{
    let all = all_indices(n);
    proof {
        lemma_arrangement_of_indices(all@, n);
    }
    if k >= n {
        return all;
    }
    proof {
        vstd::arithmetic::div_mod::lemma_div_non_zero(n as int, k as int);
        vstd::arithmetic::div_mod::lemma_div_is_ordered_by_denominator(n as int, 1, k as int);
    }
    let per_round: usize = n / k;
    let round: usize = client_id / per_round;
    let slot: usize = client_id % per_round;
    let mut shuffled = all;
    seeded_shuffle(round as u64, &mut shuffled);
    proof {
        lemma_arrangement_of_indices(shuffled@, n);
        lemma_slots_apart(n as nat, k as nat, slot as nat, slot as nat);
    }
    let start: usize = slot * k;
    let mut out: Vec<usize> = Vec::new();
    let mut i: usize = 0;
    while i < k
        invariant
            i <= k,
            start + k <= shuffled@.len() == n,
            out@ == shuffled@.subrange(start as int, start + i),
        decreases k - i,
    {
        out.push(shuffled[start + i]);
        i += 1;
        assert(out@ =~= shuffled@.subrange(start as int, start + i));
    }
    proof {
        assert forall|other: nat|
            #![trigger slice_of(n as nat, other, k as nat)]
            same_round(n as nat, k as nat, client_id as nat, other) implies disjoint(
            out@,
            slice_of(n as nat, other, k as nat),
        ) by {
            lemma_same_round_disjoint(n as nat, k as nat, client_id as nat, other);
        }
    }
    out
}

proof fn lemma_slices_cover(n: usize, k: usize, server: usize)
    requires
        0 < k,
        n as nat % k as nat == 0,
        server < n,
        k < n ==> is_arrangement(seeded_shuffle_of(0, indices(n as nat)), n as nat),
    ensures
        exists|lb: nat|
            lb < n as nat / k as nat && slice_of(n as nat, lb, k as nat).contains(server),
{
    let count = n as nat / k as nat;
    vstd::arithmetic::div_mod::lemma_fundamental_div_mod(n as int, k as int);
    if k >= n {
        if k > n {
            vstd::arithmetic::div_mod::lemma_small_mod(n as nat, k as nat);
        }
        vstd::arithmetic::div_mod::lemma_div_by_self(n as int);
        assert(slice_of(n as nat, 0, k as nat)[server as int] == server);
        assert(slice_of(n as nat, 0, k as nat).contains(server));
    } else {
        let shuffled = seeded_shuffle_of(0, indices(n as nat));
        lemma_arrangement_of_indices(shuffled, n);
        assert(shuffled.contains(server));
        let at = choose|at: int| 0 <= at < shuffled.len() && shuffled[at] == server;
        let lb = (at as nat) / (k as nat);
        vstd::arithmetic::div_mod::lemma_fundamental_div_mod(at, k as int);
        vstd::arithmetic::div_mod::lemma_mod_bound(at, k as int);
        assert(lb < count) by (nonlinear_arith)
            requires
                at == k as int * lb + at % k as int,
                0 <= at % k as int,
                at < n,
                n == k as int * count,
                0 < k,
        ;
        vstd::arithmetic::div_mod::lemma_basic_div(lb as int, count as int);
        vstd::arithmetic::div_mod::lemma_small_mod(lb, count);
        lemma_slots_apart(n as nat, k as nat, lb, lb);
        let slice = slice_of(n as nat, lb, k as nat);
        assert(lb * k == k as int * lb) by (nonlinear_arith);
        assert(slice[at - lb * k] == shuffled[at]);
        assert(slice.contains(server));
    }
}

proof fn lemma_first_round(n: nat, k: nat, a: nat, b: nat)
    requires
        0 < k,
        a < n / k,
        b < n / k,
        a != b,
    ensures
        same_round(n, k, a, b),
{
    vstd::arithmetic::div_mod::lemma_basic_div(a as int, (n / k) as int);
    vstd::arithmetic::div_mod::lemma_basic_div(b as int, (n / k) as int);
    vstd::arithmetic::div_mod::lemma_small_mod(a, n / k);
    vstd::arithmetic::div_mod::lemma_small_mod(b, n / k);
    if k >= n {
        if k > n {
            vstd::arithmetic::div_mod::lemma_basic_div(n as int, k as int);
        } else {
            vstd::arithmetic::div_mod::lemma_div_by_self(n as int);
        }
    }
}

/// The subsets of the first round, one per balancer. No backend is in two of them; if
/// their size divides the number of backends, every backend is in one of them.
pub fn subset_table(n: usize, subset_size: u32) -> (r: Vec<Vec<usize>>)
    requires
        n > 0 || subset_size > 0,
    ensures
        r@.len() == subset_count(n as nat, subset_size as nat),
        forall|lb: int|
            0 <= lb < r@.len() ==> (#[trigger] r@[lb])@ == deterministic_subset_of(
                n as nat,
                lb as nat,
                subset_size as nat,
            ),
        forall|a: int, b: int|
            #![trigger r@[a], r@[b]]
            0 <= a < r@.len() && 0 <= b < r@.len() && a != b ==> disjoint(r@[a]@, r@[b]@),
        n as nat % subset_len(n as nat, subset_size as nat) == 0 ==> forall|server: usize|
            server < n ==> #[trigger] in_some_subset(r@, server),
{
    let k: usize = subset_size_k(n, subset_size);
    let count: usize = n / k;
    let mut out: Vec<Vec<usize>> = Vec::new();
    let mut lb: usize = 0;
    while lb < count
        invariant
            lb <= count,
            k == subset_len(n as nat, subset_size as nat),
            k > 0,
            out@.len() == lb,
            forall|i: int|
                0 <= i < out@.len() ==> (#[trigger] out@[i])@ == deterministic_subset_of(
                    n as nat,
                    i as nat,
                    subset_size as nat,
                ),
            count == n as nat / k as nat,
            0 < lb && k < n ==> is_arrangement(
                seeded_shuffle_of(0, indices(n as nat)),
                n as nat,
            ),
            forall|a: int, b: int|
                #![trigger out@[a], slice_of(n as nat, b as nat, k as nat)]
                0 <= a < out@.len() && 0 <= b < count && a != b ==> disjoint(
                    out@[a]@,
                    slice_of(n as nat, b as nat, k as nat),
                ),
        decreases count - lb,
    {
        let ghost before = out@;
        let subset = deterministic_subset(n, lb, k);
        out.push(subset);
        proof {
            vstd::arithmetic::div_mod::lemma_basic_div(lb as int, count as int);
            assert forall|a: int, b: int|
                #![trigger out@[a], slice_of(n as nat, b as nat, k as nat)]
                0 <= a < out@.len() && 0 <= b < count && a != b implies disjoint(
                out@[a]@,
                slice_of(n as nat, b as nat, k as nat),
            ) by {
                if a < lb {
                    assert(out@[a] == before[a]);
                } else {
                    lemma_first_round(n as nat, k as nat, a as nat, b as nat);
                }
            }
        }
        lb += 1;
    }
    proof {
        assert forall|a: int, b: int|
            #![trigger out@[a], out@[b]]
            0 <= a < out@.len() && 0 <= b < out@.len() && a != b implies disjoint(
            out@[a]@,
            out@[b]@,
        ) by {
            assert(out@[b]@ == slice_of(n as nat, b as nat, k as nat));
        }
        if n as nat % k as nat == 0 {
            if k < n {
                vstd::arithmetic::div_mod::lemma_div_non_zero(n as int, k as int);
            }
            assert forall|server: usize| server < n implies #[trigger] in_some_subset(
                out@,
                server,
            ) by {
                lemma_slices_cover(n, k, server);
                let lb = choose|lb: nat|
                    lb < n as nat / k as nat && slice_of(n as nat, lb, k as nat).contains(server);
                assert(out@[lb as int]@.contains(server));
            }
        }
    }
    out
}

/// `picked` are the backends of `client_id`, in a run whose generator goes from `from` to
/// `to`: with the deterministic policy they are fixed by the arguments, with the random one
/// they are the first of all backends, shuffled.
pub open spec fn draws_subset(
    policy: SubsetPolicyKind,
    n: usize,
    client_id: usize,
    subset_size: u32,
    from: Option<StdRng>,
    picked: Seq<usize>,
    to: Option<StdRng>,
) -> bool {
    match policy {
        SubsetPolicyKind::Deterministic => picked == deterministic_subset_of(
            n as nat,
            client_id as nat,
            subset_size as nat,
        ) && to == from,
        SubsetPolicyKind::Random => exists|order: Seq<usize>| #[trigger]
            shuffles(from, indices(n as nat), order, to) && picked == order.take(
                if n == 0 {
                    0
                } else {
                    subset_len(n as nat, subset_size as nat) as int
                },
            ),
    }
}

fn random_subset(n: usize, k: usize, rng: &mut RunRng) -> (r: Vec<usize>)
    ensures
        r@.len() == if k < n {
            k
        } else {
            n
        },
        distinct_below(r@, n as nat),
        exists|order: Seq<usize>| #[trigger]
            shuffles(
                old(rng).generator(),
                indices(n as nat),
                order,
                final(rng).generator(),
            ) && r@ == order.take(r@.len() as int),
{
    let mut picked = all_indices(n);
    shuffle(rng, &mut picked);
    let ghost order = picked@;
    assert(shuffles(old(rng).generator(), indices(n as nat), order, rng.generator()));
    proof {
        lemma_arrangement_of_indices(picked@, n);
    }
    picked.truncate(k);
    assert(picked@ =~= order.take(picked@.len() as int));
    picked
}

/// The backends of `client_id` among `n`. With the deterministic policy the result is
/// fixed by the arguments; with the random one it is drawn, and its backends are distinct.
pub fn assign_subset(
    policy: SubsetPolicyKind,
    n: usize,
    client_id: usize,
    subset_size: u32,
    rng: &mut RunRng,
) -> (r: Vec<usize>)
    ensures
        r@.len() == if n == 0 {
            0
        } else {
            subset_len(n as nat, subset_size as nat)
        },
        distinct_below(r@, n as nat),
        policy == SubsetPolicyKind::Deterministic ==> r@ == deterministic_subset_of(
            n as nat,
            client_id as nat,
            subset_size as nat,
        ),
        policy == SubsetPolicyKind::Deterministic ==> forall|other: nat|
            #![trigger deterministic_subset_of(n as nat, other, subset_size as nat)]
            same_round(
                n as nat,
                subset_len(n as nat, subset_size as nat),
                client_id as nat,
                other,
            ) ==> disjoint(r@, deterministic_subset_of(n as nat, other, subset_size as nat)),
        draws_subset(
            policy,
            n,
            client_id,
            subset_size,
            old(rng).generator(),
            r@,
            final(rng).generator(),
        ),
{
    let k: usize = subset_size_k(n, subset_size);
    match policy {
        SubsetPolicyKind::Random => random_subset(n, k, rng),
        SubsetPolicyKind::Deterministic => deterministic_subset(n, client_id, k),
    }
}

/// Runs with one generator draw one subset, and go on with one generator.
pub proof fn law_one_generator_draws_one_subset(
    policy: SubsetPolicyKind,
    n: usize,
    client_id: usize,
    subset_size: u32,
    generator: StdRng,
    a: Seq<usize>,
    to_a: Option<StdRng>,
    b: Seq<usize>,
    to_b: Option<StdRng>,
)
    requires
        draws_subset(policy, n, client_id, subset_size, Some(generator), a, to_a),
        draws_subset(policy, n, client_id, subset_size, Some(generator), b, to_b),
    ensures
        a == b,
        to_a == to_b,
{
}

/// How many backends a client gets: all of them where no size is asked for, the size where
/// there are that many, and all of them otherwise.
pub proof fn law_subset_has_the_size_asked_for(n: nat, size: nat)
    requires
        n > 0,
    ensures
        size == 0 ==> subset_len(n, size) == n,
        0 < size <= n ==> subset_len(n, size) == size,
        size > n ==> subset_len(n, size) == n,
        subset_count(n, size) * subset_len(n, size) <= n,
        n < (subset_count(n, size) + 1) * subset_len(n, size),
{
    let k = subset_len(n, size) as int;
    vstd::arithmetic::div_mod::lemma_fundamental_div_mod(n as int, k);
    vstd::arithmetic::div_mod::lemma_mod_bound(n as int, k);
    let q = n as int / k;
    assert(k * q == q * k && (q + 1) * k == q * k + k) by (nonlinear_arith);
}

/// The deterministic policy deals the backends out in rounds: a round shuffles all of them with
/// a generator that is seeded with its number, and its clients take the shuffled backends in
/// turn, as many as they are owed each. So client `slot` of round `round` starts where the one
/// before it ended.
pub proof fn law_rounds_deal_the_backends_out(n: nat, size: nat, round: nat, slot: nat, i: int)
    requires
        0 < size < n <= usize::MAX,
        slot < n / size,
        0 <= i < size,
        round <= u64::MAX,
    ensures
        ({
            let client = round * (n / size) + slot;
            let order = crate::rng::shuffled_order(
                crate::rng::fresh_generator(round as u64),
                n as usize,
            );
            let mine = deterministic_subset_of(n, client as nat, size);
            &&& mine.len() == size
            &&& mine[i] == indices(n)[order[slot * size + i] as int]
        }),
{
    let per_round = n / size;
    let client = round * per_round + slot;
    lemma_slots_apart(n, size, slot, slot);
    assert(client / per_round == round && client % per_round == slot) by {
        vstd::arithmetic::div_mod::lemma_fundamental_div_mod_converse(
            client as int,
            per_round as int,
            round as int,
            slot as int,
        );
        assert(round * per_round == per_round * round) by (nonlinear_arith);
    }
}

/// Without a size, or with one that no smaller subset fits, every client gets all backends in
/// their order.
pub proof fn law_large_subsets_hold_all_backends(n: nat, client: nat, size: nat, i: int)
    requires
        0 < n <= usize::MAX,
        size == 0 || size >= n,
        0 <= i < n,
    ensures
        deterministic_subset_of(n, client, size).len() == n,
        deterministic_subset_of(n, client, size)[i] == i,
{
}

/// A random subset holds as many different backends as are asked for, and each of them is one
/// that there is. In a run it is the front of the order that the generator shuffles them into.
pub proof fn law_random_subset_is_the_front_of_a_shuffle(
    n: usize,
    client_id: usize,
    size: u32,
    from: Option<StdRng>,
    picked: Seq<usize>,
    to: Option<StdRng>,
)
    requires
        n > 0,
        draws_subset(SubsetPolicyKind::Random, n, client_id, size, from, picked, to),
    ensures
        size == 0 || size >= n ==> picked.len() == n,
        0 < size < n ==> picked.len() == size,
        picked.no_duplicates(),
        forall|i: int| 0 <= i < picked.len() ==> (#[trigger] picked[i]) < n,
        from matches Some(g) ==> {
            &&& to == Some(crate::rng::after_shuffle(g, n))
            &&& forall|i: int|
                0 <= i < picked.len() ==> #[trigger] picked[i] == indices(
                    n as nat,
                )[crate::rng::shuffled_order(g, n)[i] as int]
        },
        from is None ==> to is None,
{
    let order = choose|order: Seq<usize>| #[trigger]
        shuffles(from, indices(n as nat), order, to) && picked == order.take(
            subset_len(n as nat, size as nat) as int,
        );
    lemma_arrangement_of_indices(order, n);
}

} // verus!
