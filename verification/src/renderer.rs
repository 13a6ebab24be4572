//! The pixel protocol of the renderer: a unit of work is a pixel coordinate,
//! a finished result is a coordinate with a quantized color. The work list
//! is enumerated and shuffled here; channels and threads live outside the
//! library.
use crate::util::random_below;
use vstd::prelude::*;

verus! {

/// A pixel coordinate.
#[derive(Clone, Copy, PartialEq, Eq, Structural, Debug)]
pub struct Cord {
    pub x: usize,
    pub y: usize,
}

/// A finished output pixel: coordinate and gamma-corrected RGB bytes.
#[derive(Clone, Copy, PartialEq, Eq, Debug)]
pub struct Pixel {
    pub cord: Cord,
    pub color: (u8, u8, u8),
}

/// Every pixel coordinate of a `width` by `height` image, row by row: entry
/// `k` is `(k % width, k / width)`.
pub fn all_pixel_coords(width: usize, height: usize) -> (v: Vec<Cord>)
    requires
        width >= 1,
        width * height <= usize::MAX,
    ensures
        v@.len() == width * height,
        forall|k: int|
            0 <= k < v@.len() ==> v@[k].x == k % (width as int) && v@[k].y == k / (width as int),
{
    let mut v: Vec<Cord> = Vec::new();
    let mut j: usize = 0;
    while j < height
        invariant
            j <= height,
            width >= 1,
            width * height <= usize::MAX,
            v@.len() == j * width,
            forall|k: int|
                0 <= k < v@.len() ==> v@[k].x == k % (width as int) && v@[k].y == k / (
                width as int),
        decreases height - j,
    {
        let mut i: usize = 0;
        proof {
            assert((j + 1) * width <= height * width) by (nonlinear_arith)
                requires
                    j + 1 <= height,
                    width >= 0,
            ;
        }
        while i < width
            invariant
                i <= width,
                j < height,
                width >= 1,
                width * height <= usize::MAX,
                v@.len() == j * width + i,
                (j + 1) * width <= height * width,
                forall|k: int|
                    0 <= k < v@.len() ==> v@[k].x == k % (width as int) && v@[k].y == k / (
                    width as int),
            decreases width - i,
        {
            proof {
                assert(j * width + i + 1 <= (j + 1) * width) by (nonlinear_arith)
                    requires
                        i + 1 <= width,
                ;
                assert(height * width == width * height) by (nonlinear_arith);
                let k = j * width + i;
                vstd::arithmetic::div_mod::lemma_fundamental_div_mod_converse(
                    k as int,
                    width as int,
                    j as int,
                    i as int,
                );
            }
            v.push(Cord { x: i, y: j });
            i = i + 1;
        }
        j = j + 1;
        proof {
            assert(v@.len() == j * width) by (nonlinear_arith)
                requires
                    v@.len() == (j - 1) * width + width,
            ;
        }
    }
    proof {
        assert(v@.len() == height * width);
        assert(height * width == width * height) by (nonlinear_arith);
    }
    v
}

/// Fisher-Yates shuffle driven by the trusted uniform draw: the list after is
/// a permutation of the list before.
pub fn shuffle_coords(v: &mut Vec<Cord>)
    ensures
        final(v)@.to_multiset() == old(v)@.to_multiset(),
        final(v)@.len() == old(v)@.len(),
{
    proof {
        vstd::seq_lib::to_multiset_len(old(v)@);
        vstd::seq_lib::to_multiset_len(v@);
    }
    let n: usize = v.len();
    if n < 2 {
        return ;
    }
    let mut k: usize = n;
    while k > 1
        invariant
            1 <= k <= n,
            n == v@.len(),
            v@.to_multiset() == old(v)@.to_multiset(),
        decreases k,
    {
        if k <= i64::MAX as usize {
            let pick: i64 = random_below(k as i64);
            let idx: usize = pick as usize;
            let a: Cord = v[idx];
            let b: Cord = v[k - 1];
            proof {
                lemma_swap_multiset(v@, idx as int, (k - 1) as int);
            }
            v[idx] = b;
            v[k - 1] = a;
        }
        k = k - 1;
    }
    proof {
        vstd::seq_lib::to_multiset_len(v@);
    }
}

/// Swapping two entries of a sequence keeps its multiset of values.
proof fn lemma_swap_multiset(s: Seq<Cord>, i: int, j: int)
    requires
        0 <= i < s.len(),
        0 <= j < s.len(),
    ensures
        s.update(i, s[j]).update(j, s[i]).to_multiset() == s.to_multiset(),
{
    let a = s[i];
    let b = s[j];
    let s1 = s.update(i, b);
    vstd::seq_lib::to_multiset_update(s, i, b);
    vstd::seq_lib::to_multiset_update(s1, j, a);
    vstd::seq_lib::to_multiset_contains(s, a);
    vstd::seq_lib::to_multiset_contains(s1, b);
    assert(s.contains(a) && s1.contains(b));
    assert(s1[j] == b);
    assert(s1.update(j, a).to_multiset() =~= s.to_multiset());
}

} // verus!
