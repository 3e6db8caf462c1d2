//! Galaxy-catalog bookkeeping of the correlation engine: the grouping of
//! objects into sky patches for the jackknife, and the shuffled catalogs of
//! the Monte Carlo ensemble.

use vstd::prelude::*;
use crate::random::{shuffle_values, thread_rng};

verus! {

/// The bin index `i`, clamped to the last of `n` bins.
pub open spec fn clamp_bin(i: nat, n: nat) -> nat {
    if i < n - 1 {
        i
    } else {
        (n - 1) as nat
    }
}

/// The patch of an object with (unclamped) bin indices `b` in right
/// ascension, declination and redshift.
pub open spec fn patch_of(b: (usize, usize, usize), n_ra: nat, n_dec: nat, n_z: nat) -> nat {
    clamp_bin(b.0 as nat, n_ra) + clamp_bin(b.1 as nat, n_dec) * n_ra + clamp_bin(b.2 as nat, n_z) * n_ra
        * n_dec
}

/// The objects among the first `n` whose patch is `p`, in increasing order.
pub open spec fn patch_members(bins: Seq<(usize, usize, usize)>, n_ra: nat, n_dec: nat, n_z: nat, p: nat, n: nat) -> Seq<usize>
    decreases n,
{
    if n == 0 {
        seq![]
    } else {
        let prev = patch_members(bins, n_ra, n_dec, n_z, p, (n - 1) as nat);
        if patch_of(bins[n - 1], n_ra, n_dec, n_z) == p {
            prev.push((n - 1) as usize)
        } else {
            prev
        }
    }
}

proof fn lemma_patch_bound(b: (usize, usize, usize), n_ra: nat, n_dec: nat, n_z: nat)
    requires
        n_ra >= 1,
        n_dec >= 1,
        n_z >= 1,
    ensures
        patch_of(b, n_ra, n_dec, n_z) < n_ra * n_dec * n_z,
{
    let x = clamp_bin(b.0 as nat, n_ra);
    let y = clamp_bin(b.1 as nat, n_dec);
    let z = clamp_bin(b.2 as nat, n_z);
    assert(x + y * n_ra + z * n_ra * n_dec < n_ra * n_dec * n_z) by (nonlinear_arith)
        requires
            x < n_ra,
            y < n_dec,
            z < n_z,
            n_ra >= 1,
            n_dec >= 1,
    ;
}

proof fn lemma_patch_members_below(bins: Seq<(usize, usize, usize)>, n_ra: nat, n_dec: nat, n_z: nat, p: nat, n: nat)
    requires
        n <= bins.len(),
        n <= usize::MAX,
    ensures
        forall|k: int| 0 <= k < patch_members(bins, n_ra, n_dec, n_z, p, n).len() ==> #[trigger] patch_members(
            bins,
            n_ra,
            n_dec,
            n_z,
            p,
            n,
        )[k] < n,
    decreases n,
{
    if n > 0 {
        lemma_patch_members_below(bins, n_ra, n_dec, n_z, p, (n - 1) as nat);
        let prev = patch_members(bins, n_ra, n_dec, n_z, p, (n - 1) as nat);
        let cur = patch_members(bins, n_ra, n_dec, n_z, p, n);
        assert forall|k: int| 0 <= k < cur.len() implies #[trigger] cur[k] < n by {
            if k < prev.len() {
                assert(cur[k] == prev[k]);
            } else {
                assert(cur[k] == (n - 1) as usize);
            }
        }
    }
}

/// Every object lies in exactly one patch, the patch of its bins: object `i`
/// is among the members of patch `p` exactly when `p` is its patch.
pub proof fn lemma_patches_partition(bins: Seq<(usize, usize, usize)>, n_ra: nat, n_dec: nat, n_z: nat, p: nat, i: int)
    requires
        0 <= i < bins.len(),
        bins.len() <= usize::MAX,
    ensures
        patch_members(bins, n_ra, n_dec, n_z, p, bins.len()).contains(i as usize) <==> p == patch_of(
            bins[i],
            n_ra,
            n_dec,
            n_z,
        ),
{
    lemma_members_contain(bins, n_ra, n_dec, n_z, p, i, bins.len());
}

proof fn lemma_members_contain(bins: Seq<(usize, usize, usize)>, n_ra: nat, n_dec: nat, n_z: nat, p: nat, i: int, n: nat)
    requires
        0 <= i < n,
        n <= bins.len(),
        n <= usize::MAX,
    ensures
        patch_members(bins, n_ra, n_dec, n_z, p, n).contains(i as usize) <==> p == patch_of(
            bins[i],
            n_ra,
            n_dec,
            n_z,
        ),
    decreases n,
{
    let prev = patch_members(bins, n_ra, n_dec, n_z, p, (n - 1) as nat);
    let cur = patch_members(bins, n_ra, n_dec, n_z, p, n);
    lemma_patch_members_below(bins, n_ra, n_dec, n_z, p, (n - 1) as nat);
    if i == n - 1 {
        if p == patch_of(bins[i], n_ra, n_dec, n_z) {
            assert(cur[cur.len() - 1] == i as usize);
        } else {
            assert(cur == prev);
            if prev.contains(i as usize) {
                let k = choose|k: int| 0 <= k < prev.len() && prev[k] == i as usize;
                assert(prev[k] < n - 1);
            }
        }
    } else {
        lemma_members_contain(bins, n_ra, n_dec, n_z, p, i, (n - 1) as nat);
        if patch_of(bins[n - 1], n_ra, n_dec, n_z) == p {
            assert(cur == prev.push((n - 1) as usize));
            if cur.contains(i as usize) {
                let k = choose|k: int| 0 <= k < cur.len() && cur[k] == i as usize;
                if k < prev.len() {
                    assert(prev[k] == i as usize);
                }
            }
            if prev.contains(i as usize) {
                let k = choose|k: int| 0 <= k < prev.len() && prev[k] == i as usize;
                assert(cur[k] == i as usize);
            }
        }
    }
}

/// The ids among the first `t` patches that hold at least one of the
/// objects, in increasing order.
pub open spec fn kept_patches(bins: Seq<(usize, usize, usize)>, n_ra: nat, n_dec: nat, n_z: nat, t: nat) -> Seq<nat>
    decreases t,
{
    if t == 0 {
        seq![]
    } else {
        let prev = kept_patches(bins, n_ra, n_dec, n_z, (t - 1) as nat);
        if patch_members(bins, n_ra, n_dec, n_z, (t - 1) as nat, bins.len()).len() > 0 {
            prev.push((t - 1) as nat)
        } else {
            prev
        }
    }
}

proof fn lemma_kept(bins: Seq<(usize, usize, usize)>, n_ra: nat, n_dec: nat, n_z: nat, t: nat)
    ensures
        kept_patches(bins, n_ra, n_dec, n_z, t).len() <= t,
        forall|k: int|
            0 <= k < kept_patches(bins, n_ra, n_dec, n_z, t).len() ==> #[trigger] kept_patches(
                bins,
                n_ra,
                n_dec,
                n_z,
                t,
            )[k] < t && patch_members(bins, n_ra, n_dec, n_z, kept_patches(bins, n_ra, n_dec, n_z, t)[k], bins.len()).len()
                > 0,
        forall|a: int, b: int|
            0 <= a < b < kept_patches(bins, n_ra, n_dec, n_z, t).len() ==> #[trigger] kept_patches(
                bins,
                n_ra,
                n_dec,
                n_z,
                t,
            )[a] < #[trigger] kept_patches(bins, n_ra, n_dec, n_z, t)[b],
        forall|p: nat|
            p < t && #[trigger] patch_members(bins, n_ra, n_dec, n_z, p, bins.len()).len() > 0
                ==> kept_patches(bins, n_ra, n_dec, n_z, t).contains(p),
    decreases t,
{
    if t > 0 {
        lemma_kept(bins, n_ra, n_dec, n_z, (t - 1) as nat);
        let prev = kept_patches(bins, n_ra, n_dec, n_z, (t - 1) as nat);
        let cur = kept_patches(bins, n_ra, n_dec, n_z, t);
        assert forall|p: nat|
            p < t && #[trigger] patch_members(bins, n_ra, n_dec, n_z, p, bins.len()).len() > 0 implies cur.contains(p) by {
            if p < t - 1 {
                let k = choose|k: int| 0 <= k < prev.len() && prev[k] == p;
                assert(cur[k] == p);
            } else {
                assert(cur[cur.len() - 1] == p);
            }
        }
    }
}

proof fn lemma_members_increasing(bins: Seq<(usize, usize, usize)>, n_ra: nat, n_dec: nat, n_z: nat, p: nat, n: nat)
    requires
        n <= bins.len(),
        n <= usize::MAX,
    ensures
        forall|a: int, b: int|
            0 <= a < b < patch_members(bins, n_ra, n_dec, n_z, p, n).len() ==> #[trigger] patch_members(
                bins,
                n_ra,
                n_dec,
                n_z,
                p,
                n,
            )[a] < #[trigger] patch_members(bins, n_ra, n_dec, n_z, p, n)[b],
    decreases n,
{
    if n > 0 {
        lemma_members_increasing(bins, n_ra, n_dec, n_z, p, (n - 1) as nat);
        lemma_patch_members_below(bins, n_ra, n_dec, n_z, p, (n - 1) as nat);
        let prev = patch_members(bins, n_ra, n_dec, n_z, p, (n - 1) as nat);
        let cur = patch_members(bins, n_ra, n_dec, n_z, p, n);
        assert forall|a: int, b: int| 0 <= a < b < cur.len() implies #[trigger] cur[a] < #[trigger] cur[b] by {
            assert(cur[a] == prev[a]);
            if b < prev.len() {
                assert(cur[b] == prev[b]);
            } else {
                assert(prev[a] < n - 1);
            }
        }
    }
}

/// Object `i` is listed in one of the patches.
pub open spec fn in_some_patch(patches: Seq<Vec<usize>>, i: int) -> bool {
    exists|k: int| 0 <= k < patches.len() && #[trigger] patches[k]@.contains(i as usize)
}

/// Groups the objects into the sky patches of an `n_ra · n_dec · n_z` grid,
/// given each object's bin indices (clamped here to the last bin), and keeps
/// the patches that hold an object, in the order of their ids. Every object
/// lands in exactly one of the returned patches, each of which lists its
/// objects in increasing order. Returns no patches for an empty catalog.
pub fn group_into_patches(bins: &Vec<(usize, usize, usize)>, n_ra: usize, n_dec: usize, n_z: usize) -> (patches: Vec<Vec<usize>>)
    requires
        bins@.len() > 0 ==> n_ra >= 1 && n_dec >= 1 && n_z >= 1 && n_ra * n_dec * n_z <= usize::MAX,
    ensures
        bins@.len() == 0 ==> patches@.len() == 0,
        bins@.len() > 0 ==> patches@.len() == kept_patches(
            bins@,
            n_ra as nat,
            n_dec as nat,
            n_z as nat,
            (n_ra * n_dec * n_z) as nat,
        ).len(),
        bins@.len() > 0 ==> forall|k: int|
            0 <= k < patches@.len() ==> #[trigger] patches@[k]@ == patch_members(
                bins@,
                n_ra as nat,
                n_dec as nat,
                n_z as nat,
                kept_patches(bins@, n_ra as nat, n_dec as nat, n_z as nat, (n_ra * n_dec * n_z) as nat)[k],
                bins@.len(),
            ),
        bins@.len() > 0 ==> patches@.len() <= n_ra * n_dec * n_z,
        forall|k: int| 0 <= k < patches@.len() ==> #[trigger] patches@[k]@.len() > 0,
        forall|k: int, a: int, b: int|
            0 <= k < patches@.len() && 0 <= a < b < patches@[k]@.len() ==> #[trigger] patches@[k]@[a]
                < #[trigger] patches@[k]@[b],
        forall|k1: int, k2: int, x: usize|
            0 <= k1 < patches@.len() && 0 <= k2 < patches@.len() && k1 != k2 && #[trigger] patches@[k1]@.contains(x)
                ==> !#[trigger] patches@[k2]@.contains(x),
        forall|k: int, a: int|
            0 <= k < patches@.len() && 0 <= a < patches@[k]@.len() ==> #[trigger] patches@[k]@[a] < bins@.len(),
        forall|i: int| 0 <= i < bins@.len() ==> #[trigger] in_some_patch(patches@, i),
{
    let n = bins.len();
    if n == 0 {
        return Vec::new();
    }
    assert(n_ra * n_dec <= n_ra * n_dec * n_z) by (nonlinear_arith)
        requires
            n_z >= 1,
    ;
    let total = n_ra * n_dec * n_z;
    let mut patches: Vec<Vec<usize>> = Vec::with_capacity(total);
    let mut p: usize = 0;
    while p < total
        invariant
            p <= total,
            patches@.len() == p,
            forall|q: int| 0 <= q < p ==> #[trigger] patches@[q]@ == Seq::<usize>::empty(),
        decreases total - p,
    {
        patches.push(Vec::new());
        p = p + 1;
    }
    let mut i: usize = 0;
    while i < n
        invariant
            n == bins@.len(),
            total == n_ra * n_dec * n_z,
            n_ra * n_dec <= total,
            n_ra >= 1,
            n_dec >= 1,
            n_z >= 1,
            i <= n,
            patches@.len() == total,
            forall|q: int|
                0 <= q < total ==> #[trigger] patches@[q]@ == patch_members(
                    bins@,
                    n_ra as nat,
                    n_dec as nat,
                    n_z as nat,
                    q as nat,
                    i as nat,
                ),
        decreases n - i,
    {
        let b = bins[i];
        let ra_idx = if b.0 < n_ra - 1 {
            b.0
        } else {
            n_ra - 1
        };
        let dec_idx = if b.1 < n_dec - 1 {
            b.1
        } else {
            n_dec - 1
        };
        let z_idx = if b.2 < n_z - 1 {
            b.2
        } else {
            n_z - 1
        };
        proof {
            lemma_patch_bound(b, n_ra as nat, n_dec as nat, n_z as nat);
            assert(dec_idx * n_ra <= total) by (nonlinear_arith)
                requires
                    dec_idx < n_dec,
                    n_ra * n_dec <= total,
            ;
            assert(z_idx * (n_ra * n_dec) <= total) by (nonlinear_arith)
                requires
                    z_idx < n_z,
                    total == n_ra * n_dec * n_z,
            ;
            assert(z_idx * (n_ra * n_dec) == z_idx * n_ra * n_dec) by (nonlinear_arith);
        }
        let patch_id = ra_idx + dec_idx * n_ra + z_idx * (n_ra * n_dec);
        assert(patch_id == patch_of(b, n_ra as nat, n_dec as nat, n_z as nat));
        if patch_id < total {
            let mut members = patches[patch_id].clone();
            members.push(i);
            patches.set(patch_id, members);
        }
        proof {
            assert forall|q: int| 0 <= q < total implies #[trigger] patches@[q]@ == patch_members(
                bins@,
                n_ra as nat,
                n_dec as nat,
                n_z as nat,
                q as nat,
                (i + 1) as nat,
            ) by {
                assert(bins@[i as int] == b);
            }
        }
        i = i + 1;
    }
    let ghost nb = n_ra as nat;
    let ghost nd = n_dec as nat;
    let ghost nz = n_z as nat;
    let mut kept: Vec<Vec<usize>> = Vec::new();
    let mut q: usize = 0;
    while q < total
        invariant
            n == bins@.len(),
            total == n_ra * n_dec * n_z,
            q <= total,
            patches@.len() == total,
            forall|p: int|
                0 <= p < total ==> #[trigger] patches@[p]@ == patch_members(bins@, nb, nd, nz, p as nat, n as nat),
            kept@.len() == kept_patches(bins@, nb, nd, nz, q as nat).len(),
            forall|k: int|
                0 <= k < kept@.len() ==> #[trigger] kept@[k]@ == patch_members(
                    bins@,
                    nb,
                    nd,
                    nz,
                    kept_patches(bins@, nb, nd, nz, q as nat)[k],
                    n as nat,
                ),
        decreases total - q,
    {
        if patches[q].len() > 0 {
            kept.push(patches[q].clone());
        }
        q = q + 1;
    }
    proof {
        let t = total as nat;
        let ks = kept_patches(bins@, nb, nd, nz, t);
        lemma_kept(bins@, nb, nd, nz, t);
        assert forall|k: int, a: int, b: int|
            0 <= k < kept@.len() && 0 <= a < b < kept@[k]@.len() implies #[trigger] kept@[k]@[a]
                < #[trigger] kept@[k]@[b] by {
            lemma_members_increasing(bins@, nb, nd, nz, ks[k], n as nat);
        }
        assert forall|k: int, a: int|
            0 <= k < kept@.len() && 0 <= a < kept@[k]@.len() implies #[trigger] kept@[k]@[a] < bins@.len() by {
            lemma_patch_members_below(bins@, nb, nd, nz, ks[k], n as nat);
        }
        assert forall|k1: int, k2: int, x: usize|
            0 <= k1 < kept@.len() && 0 <= k2 < kept@.len() && k1 != k2 && #[trigger] kept@[k1]@.contains(x)
                implies !#[trigger] kept@[k2]@.contains(x) by {
            if kept@[k2]@.contains(x) {
                let a = choose|a: int| 0 <= a < kept@[k1]@.len() && kept@[k1]@[a] == x;
                lemma_patch_members_below(bins@, nb, nd, nz, ks[k1], n as nat);
                assert(x < n);
                lemma_patches_partition(bins@, nb, nd, nz, ks[k1], x as int);
                lemma_patches_partition(bins@, nb, nd, nz, ks[k2], x as int);
                if k1 < k2 {
                    assert(ks[k1] < ks[k2]);
                } else {
                    assert(ks[k2] < ks[k1]);
                }
            }
        }
        assert forall|i: int| 0 <= i < bins@.len() implies #[trigger] in_some_patch(kept@, i) by {
            let p = patch_of(bins@[i], nb, nd, nz);
            lemma_patch_bound(bins@[i], nb, nd, nz);
            lemma_patches_partition(bins@, nb, nd, nz, p, i);
            assert(patch_members(bins@, nb, nd, nz, p, n as nat).len() > 0);
            assert(ks.contains(p));
            let k = choose|k: int| 0 <= k < ks.len() && ks[k] == p;
            assert(kept@[k]@.contains(i as usize));
        }
    }
    kept
}

fn copy_values<T: Copy>(s: &[T]) -> (v: Vec<T>)
    ensures
        v@ == s@,
{
    let mut v: Vec<T> = Vec::with_capacity(s.len());
    let mut i: usize = 0;
    while i < s.len()
        invariant
            i <= s@.len(),
            v@ == s@.subrange(0, i as int),
        decreases s@.len() - i,
    {
        v.push(s[i]);
        i = i + 1;
        assert(v@ =~= s@.subrange(0, i as int));
    }
    assert(v@ =~= s@);
    v
}

/// Shuffles right ascension, declination and redshift independently, which
/// breaks the spatial coherence of the catalog while keeping each column's
/// values.
pub fn shuffle_catalog<T: Copy>(ra: &[T], dec: &[T], z: &[T]) -> (res: (Vec<T>, Vec<T>, Vec<T>))
    ensures
        res.0@.to_multiset() == ra@.to_multiset(),
        res.1@.to_multiset() == dec@.to_multiset(),
        res.2@.to_multiset() == z@.to_multiset(),
        res.0@.len() == ra@.len(),
        res.1@.len() == dec@.len(),
        res.2@.len() == z@.len(),
{
    broadcast use vstd::seq_lib::group_to_multiset_ensures;

    let mut rng = thread_rng();
    let mut ra_shuffled = copy_values(ra);
    let mut dec_shuffled = copy_values(dec);
    let mut z_shuffled = copy_values(z);
    shuffle_values(&mut ra_shuffled, &mut rng);
    shuffle_values(&mut dec_shuffled, &mut rng);
    shuffle_values(&mut z_shuffled, &mut rng);
    proof {
        assert(ra_shuffled@.len() == ra_shuffled@.to_multiset().len());
        assert(ra@.len() == ra@.to_multiset().len());
        assert(dec_shuffled@.len() == dec_shuffled@.to_multiset().len());
        assert(dec@.len() == dec@.to_multiset().len());
        assert(z_shuffled@.len() == z_shuffled@.to_multiset().len());
        assert(z@.len() == z@.to_multiset().len());
    }
    (ra_shuffled, dec_shuffled, z_shuffled)
}

} // verus!
