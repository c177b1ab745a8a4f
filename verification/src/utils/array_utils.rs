use vstd::prelude::*;

use rand::rngs::ThreadRng;

use crate::utils::draws::{pick_usize_at, Draw, DrawSource, RandomDraws};
use crate::map::map_gen_functions::{lemma_starts_with_push, lemma_starts_with_trans, starts_with};

verus! {

/// `p` lists each index below `n` once.
pub open spec fn is_permutation(p: Seq<int>, n: int) -> bool {
    &&& p.len() == n
    &&& forall|i: int| 0 <= i < n ==> 0 <= #[trigger] p[i] < n
    &&& forall|i: int, j: int| 0 <= i < j < n ==> p[i] != p[j]
}

/// Exchanging two entries of a permutation gives a permutation.
proof fn lemma_swap_permutation(p: Seq<int>, n: int, a: int, b: int)
    requires
        is_permutation(p, n),
        0 <= a < n,
        0 <= b < n,
    ensures
        is_permutation(p.update(a, p[b]).update(b, p[a]), n),
{
    let q = p.update(a, p[b]).update(b, p[a]);
    assert forall|i: int, j: int| 0 <= i < j < n implies q[i] != q[j] by {
        let si = if i == b { a } else if i == a { b } else { i };
        let sj = if j == b { a } else if j == a { b } else { j };
        assert(q[i] == p[si]);
        assert(q[j] == p[sj]);
        assert(si != sj);
        if si < sj {
        } else {
            assert(p[sj] != p[si]);
        }
    }
    assert forall|i: int| 0 <= i < n implies 0 <= #[trigger] q[i] < n by {
        let si = if i == b { a } else if i == a { b } else { i };
        assert(q[i] == p[si]);
    }
}

/// The indices `0..n` in order.
pub open spec fn identity_order(n: int) -> Seq<int> {
    Seq::new(n as nat, |k: int| k)
}

/// The order that the shuffle draws `ds` from `at` on give `ids` with its
/// first `i` positions not yet fixed: position `i - 1` takes the index at
/// the position picked from `0` to `i - 1`, which takes the index that was
/// at `i - 1`, and so on down; `None` when a draw does not answer the pick
/// asked there.
pub open spec fn shuffle_order(ids: Seq<int>, i: int, ds: Seq<Draw>, at: int) -> Option<Seq<int>>
    decreases i,
{
    if i <= 0 {
        Some(ids)
    } else {
        match pick_usize_at(ds, at, 0, (i - 1) as usize) {
            None => None,
            Some(j) => shuffle_order(ids.update(i - 1, ids[j as int]).update(j as int, ids[i - 1]), i - 1, ds, at + 1),
        }
    }
}

/// A shuffled copy of `vec`: going down from the last position, each
/// position takes the entry at a position drawn uniformly from those not yet
/// fixed (the Fisher-Yates shuffle). The result holds a clone of every entry
/// of `vec` exactly once; the arrangement, for given draws, is stated by
/// `shuffle_vec_with`.
pub fn shuffle_vec<T: Clone>(vec: &Vec<T>, rng: &mut ThreadRng) -> (result: Vec<T>)
    ensures
        result@.len() == vec@.len(),
        exists|p: Seq<int>|
            is_permutation(p, vec@.len() as int) && forall|k: int|
                0 <= k < vec@.len() ==> #[trigger] cloned::<T>(vec@[p[k]], result@[k]),
{
    let mut draws = RandomDraws::new(rng);
    shuffle_vec_with(vec, &mut draws)
}

/// The shuffle of `shuffle_vec`, with the draws taken from `draws`: entry
/// `k` of the result is a clone of entry `p[k]` of `vec`, for the order `p`
/// that `shuffle_order` gives the draws made.
pub fn shuffle_vec_with<T: Clone, D: DrawSource>(vec: &Vec<T>, draws: &mut D) -> (result: Vec<T>)
    ensures
        result@.len() == vec@.len(),
        starts_with(final(draws).drawn(), old(draws).drawn()),
        shuffle_order(identity_order(vec@.len() as int), vec@.len() as int, final(draws).drawn(), old(draws).drawn().len() as int)
            is Some,
        ({
            let p = shuffle_order(
                identity_order(vec@.len() as int),
                vec@.len() as int,
                final(draws).drawn(),
                old(draws).drawn().len() as int,
            )->0;
            &&& is_permutation(p, vec@.len() as int)
            &&& forall|k: int| 0 <= k < vec@.len() ==> #[trigger] cloned::<T>(vec@[p[k]], result@[k])
        }),
{
    let ghost d0 = draws.drawn();
    proof {
        lemma_starts_with_push(d0, Draw::PickUsize { lo: 0, hi: 0, value: 0 });
    }
    let mut pool = vec.clone();
    let n = pool.len();
    let mut picked: Vec<T> = Vec::new();
    let ghost mut ids: Seq<int> = Seq::new(n as nat, |k: int| k);
    proof {
        assert(ids =~= identity_order(n as int));
    }
    let mut i: usize = n;
    while i > 0
        invariant
            n == vec@.len(),
            i <= n,
            pool@.len() == i,
            picked@.len() == n - i,
            is_permutation(ids, n as int),
            forall|k: int| 0 <= k < i ==> #[trigger] cloned::<T>(vec@[ids[k]], pool@[k]),
            forall|m: int| 0 <= m < n - i ==> #[trigger] cloned::<T>(vec@[ids[n - 1 - m]], picked@[m]),
            starts_with(draws.drawn(), d0),
            forall|ds: Seq<Draw>| #[trigger] starts_with(ds, draws.drawn()) ==> shuffle_order(identity_order(n as int), n as int, ds, d0.len() as int)
                == shuffle_order(ids, i as int, ds, draws.drawn().len() as int),
        decreases i,
    {
        let ghost d1 = draws.drawn();
        let j = draws.pick_usize(0, i - 1);
        proof {
            lemma_starts_with_push(d1, Draw::PickUsize { lo: 0, hi: (i - 1) as usize, value: j });
            lemma_starts_with_trans(draws.drawn(), d1, d0);
        }
        let ghost pool0 = pool@;
        let ghost ids0 = ids;
        let x = pool.swap_remove(j);
        picked.push(x);
        proof {
            lemma_swap_permutation(ids0, n as int, (i - 1) as int, j as int);
            ids = ids0.update((i - 1) as int, ids0[j as int]).update(j as int, ids0[(i - 1) as int]);
            assert forall|ds: Seq<Draw>| #[trigger] starts_with(ds, draws.drawn()) implies shuffle_order(
                identity_order(n as int),
                n as int,
                ds,
                d0.len() as int,
            ) == shuffle_order(ids, (i - 1) as int, ds, draws.drawn().len() as int) by {
                lemma_starts_with_trans(ds, draws.drawn(), d1);
                assert(ds[d1.len() as int] == draws.drawn()[d1.len() as int]);
            }
            assert forall|k: int| 0 <= k < i - 1 implies #[trigger] cloned::<T>(vec@[ids[k]], pool@[k]) by {
                if k == j as int {
                    assert(pool@[k] == pool0[(i - 1) as int]);
                    assert(cloned::<T>(vec@[ids0[(i - 1) as int]], pool0[(i - 1) as int]));
                } else {
                    assert(pool@[k] == pool0[k]);
                    assert(cloned::<T>(vec@[ids0[k]], pool0[k]));
                }
            }
            assert forall|m: int| 0 <= m < n - (i - 1) implies #[trigger] cloned::<T>(
                vec@[ids[n - 1 - m]],
                picked@[m],
            ) by {
                if m == n - i {
                    assert(picked@[m] == pool0[j as int]);
                    assert(cloned::<T>(vec@[ids0[j as int]], pool0[j as int]));
                    if j as int == (i - 1) as int {
                        assert(ids[(i - 1) as int] == ids0[j as int]);
                    }
                } else {
                    assert(cloned::<T>(vec@[ids0[n - 1 - m]], picked@[m]));
                }
            }
        }
        i = i - 1;
    }
    proof {
        lemma_starts_with_push(draws.drawn(), Draw::PickUsize { lo: 0, hi: 0, value: 0 });
        assert(shuffle_order(identity_order(n as int), n as int, draws.drawn(), d0.len() as int) == Some(ids));
    }
    let mut result: Vec<T> = Vec::new();
    while picked.len() > 0
        invariant
            n == vec@.len(),
            picked@.len() + result@.len() == n,
            is_permutation(ids, n as int),
            forall|m: int| 0 <= m < picked@.len() ==> #[trigger] cloned::<T>(vec@[ids[n - 1 - m]], picked@[m]),
            forall|k: int| 0 <= k < result@.len() ==> #[trigger] cloned::<T>(vec@[ids[k]], result@[k]),
        decreases picked@.len(),
    {
        let ghost picked0 = picked@;
        let x = picked.pop().unwrap();
        let ghost k0 = result@.len() as int;
        result.push(x);
        proof {
            assert(x == picked0[picked0.len() - 1]);
            assert(n - 1 - (picked0.len() - 1) == k0);
            assert forall|m: int| 0 <= m < picked@.len() implies #[trigger] cloned::<T>(
                vec@[ids[n - 1 - m]],
                picked@[m],
            ) by {
                assert(picked@[m] == picked0[m]);
            }
            assert forall|k: int| 0 <= k < result@.len() implies #[trigger] cloned::<T>(vec@[ids[k]], result@[k]) by {
                if k == k0 {
                    assert(cloned::<T>(vec@[ids[n - 1 - (picked0.len() - 1)]], picked0[picked0.len() - 1]));
                }
            }
        }
    }
    result
}

} // verus!
