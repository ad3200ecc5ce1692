//! The mathematical model of a block tree.
//!
//! A block of `size` bytes at offset `off` is either wholly free, wholly
//! allocated, or split into two buddies of `size / 2` bytes each, the left one
//! at `off` and the right one at `off + size / 2`. `b` is the zero-order block
//! size, the smallest block ever handed out.
use vstd::prelude::*;

use crate::errors::FreeError;

verus! {

/// The abstract state of one block and of everything below it.
pub enum Shape {
    FreeLeaf,
    AllocatedLeaf,
    Split(Box<Shape>, Box<Shape>),
}

pub open spec fn is_pow2(n: nat) -> bool
    decreases n,
{
    if n == 0 {
        false
    } else if n == 1 {
        true
    } else {
        n % 2 == 0 && is_pow2(n / 2)
    }
}

/// The smallest power of two that is at least `n`.
pub open spec fn round_up_pow2(n: nat) -> nat
    decreases n,
{
    if n <= 1 {
        1
    } else {
        2 * round_up_pow2(((n + 1) / 2) as nat)
    }
}

/// The size of the block that serves a request of `req` bytes.
pub open spec fn block_for(req: nat, b: nat) -> nat {
    round_up_pow2(if req >= b { req } else { b })
}

/// Sizes are powers of two no smaller than `b`, and no split block has two
/// free halves: coalescing is eager.
pub open spec fn wf_shape(t: Shape, size: nat, b: nat) -> bool
    decreases t,
{
    &&& is_pow2(size)
    &&& b <= size
    &&& match t {
        Shape::Split(l, r) => {
            &&& b < size
            &&& wf_shape(*l, size / 2, b)
            &&& wf_shape(*r, size / 2, b)
            &&& !(*l is FreeLeaf && *r is FreeLeaf)
        },
        _ => true,
    }
}

/// The number of free bytes in the block.
pub open spec fn free_bytes(t: Shape, size: nat) -> nat
    decreases t,
{
    match t {
        Shape::FreeLeaf => size,
        Shape::AllocatedLeaf => 0,
        Shape::Split(l, r) => free_bytes(*l, size / 2) + free_bytes(*r, size / 2),
    }
}

/// The allocated blocks: start offset to size.
pub open spec fn live(t: Shape, off: int, size: nat) -> Map<int, nat>
    decreases t,
{
    match t {
        Shape::FreeLeaf => Map::empty(),
        Shape::AllocatedLeaf => map![off => size],
        Shape::Split(l, r) => live(*l, off, size / 2).union_prefer_right(
            live(*r, off + size / 2, size / 2),
        ),
    }
}

/// The number of nodes below the root of the tree: two for every split.
pub open spec fn cells_of(t: Shape) -> nat
    decreases t,
{
    match t {
        Shape::Split(l, r) => 2 + cells_of(*l) + cells_of(*r),
        _ => 0,
    }
}

/// Where a left-first search places a request of `req` bytes, relative to
/// the block's start; `None` when nothing fits.
pub open spec fn find(t: Shape, size: nat, req: nat) -> Option<nat>
    decreases t,
{
    match t {
        Shape::AllocatedLeaf => None,
        Shape::FreeLeaf => if size < req {
            None
        } else {
            Some(0)
        },
        Shape::Split(l, r) => if size <= req {
            None
        } else {
            match find(*l, size / 2, req) {
                Some(x) => Some(x),
                None => match find(*r, size / 2, req) {
                    Some(x) => Some(x + size / 2),
                    None => None,
                },
            }
        },
    }
}

/// A free block of `size` bytes after it has been halved down to the block
/// that serves `req` bytes, which is allocated.
pub open spec fn split_down(size: nat, req: nat, b: nat) -> Shape
    decreases size,
{
    if req > size / 2 || size <= b {
        Shape::AllocatedLeaf
    } else {
        Shape::Split(Box::new(split_down(size / 2, req, b)), Box::new(Shape::FreeLeaf))
    }
}

/// The block after a request of `req` bytes has been served from it.
pub open spec fn take(t: Shape, size: nat, req: nat, b: nat) -> Shape
    decreases t,
{
    match t {
        Shape::AllocatedLeaf => t,
        Shape::FreeLeaf => if size < req {
            t
        } else {
            split_down(size, req, b)
        },
        Shape::Split(l, r) => if size <= req {
            t
        } else if find(*l, size / 2, req) is Some {
            Shape::Split(Box::new(take(*l, size / 2, req, b)), r)
        } else {
            Shape::Split(l, Box::new(take(*r, size / 2, req, b)))
        },
    }
}

/// What freeing the address `p` yields: the size of the released block, or
/// the error. The address is routed down to the leaf that contains it.
pub open spec fn free_outcome(t: Shape, off: int, size: nat, p: int) -> Result<nat, FreeError>
    decreases t,
{
    match t {
        Shape::AllocatedLeaf => if p == off {
            Ok(size)
        } else {
            Err(FreeError::UnalignedFree)
        },
        Shape::FreeLeaf => if p == off {
            Err(FreeError::DoubleFree)
        } else {
            Err(FreeError::UnalignedFree)
        },
        Shape::Split(l, r) => if p < off + size / 2 {
            free_outcome(*l, off, size / 2, p)
        } else {
            free_outcome(*r, off + size / 2, size / 2, p)
        },
    }
}

/// The block after the address `p` has been freed, with free buddies merged.
pub open spec fn release(t: Shape, off: int, size: nat, p: int) -> Shape
    decreases t,
{
    match t {
        Shape::AllocatedLeaf => if p == off {
            Shape::FreeLeaf
        } else {
            t
        },
        Shape::FreeLeaf => t,
        Shape::Split(l, r) => if p < off + size / 2 {
            let nl = release(*l, off, size / 2, p);
            if nl is FreeLeaf && *r is FreeLeaf {
                Shape::FreeLeaf
            } else {
                Shape::Split(Box::new(nl), r)
            }
        } else {
            let nr = release(*r, off + size / 2, size / 2, p);
            if *l is FreeLeaf && nr is FreeLeaf {
                Shape::FreeLeaf
            } else {
                Shape::Split(l, Box::new(nr))
            }
        },
    }
}

pub proof fn lemma_pow2_half(n: nat)
    requires
        is_pow2(n),
        n > 1,
    ensures
        is_pow2(n / 2),
        n == 2 * (n / 2),
{
}

/// Between two powers of two, the smaller fits in half the larger.
pub proof fn lemma_pow2_le_half(b: nat, s: nat)
    requires
        is_pow2(b),
        is_pow2(s),
        b < s,
    ensures
        b <= s / 2,
    decreases s,
{
    lemma_pow2_half(s);
    if b > 1 {
        lemma_pow2_half(b);
        lemma_pow2_le_half(b / 2, s / 2);
        if s / 2 > 1 {
            lemma_pow2_half(s / 2);
        }
    }
}

/// A power of two `s` with `s / 2 < n <= s` is the rounding up of `n`.
pub proof fn lemma_round_up_unique(n: nat, s: nat)
    requires
        1 <= n <= s,
        is_pow2(s),
        s / 2 < n,
    ensures
        round_up_pow2(n) == s,
    decreases s,
{
    if s > 1 {
        lemma_pow2_half(s);
        let m = ((n + 1) / 2) as nat;
        assert(m <= s / 2);
        assert((s / 2) / 2 < m);
        lemma_round_up_unique(m, s / 2);
    }
}

/// The served block of a request no larger than a power-of-two block that is
/// no smaller than `b`: it is no larger than that block.
pub proof fn lemma_block_for_bounds(req: nat, b: nat, size: nat)
    requires
        1 <= req <= size,
        is_pow2(b),
        is_pow2(size),
        b <= size,
        req > size / 2 || size <= b,
    ensures
        block_for(req, b) == size,
{
    let n = if req >= b { req } else { b };
    lemma_round_up_unique(n, size);
}

pub proof fn lemma_split_down(size: nat, req: nat, b: nat, off: int)
    requires
        is_pow2(size),
        is_pow2(b),
        b <= size,
        1 <= req <= size,
    ensures
        wf_shape(split_down(size, req, b), size, b),
        !(split_down(size, req, b) is FreeLeaf),
        1 <= block_for(req, b) <= size,
        free_bytes(split_down(size, req, b), size) + block_for(req, b) == size,
        live(split_down(size, req, b), off, size) == map![off => block_for(req, b)],
    decreases size,
{
    if req > size / 2 || size <= b {
        lemma_block_for_bounds(req, b, size);
    } else {
        lemma_pow2_half(size);
        lemma_pow2_le_half(b, size);
        lemma_split_down(size / 2, req, b, off);
        let h = size / 2;
        let sd = split_down(size, req, b);
        assert(sd == Shape::Split(Box::new(split_down(h, req, b)), Box::new(Shape::FreeLeaf)));
        assert(wf_shape(Shape::FreeLeaf, h, b));
        assert(free_bytes(Shape::FreeLeaf, h) == h);
        assert(free_bytes(sd, size) == free_bytes(split_down(h, req, b), h) + h);
        assert(live(Shape::FreeLeaf, off + h, h) =~= Map::empty());
        assert(live(split_down(size, req, b), off, size) =~= map![off => block_for(req, b)]);
    }
}

/// Allocated blocks lie within the block that holds them.
pub proof fn lemma_live_range(t: Shape, off: int, size: nat, b: nat)
    requires
        wf_shape(t, size, b),
        is_pow2(b),
    ensures
        forall|k: int| #[trigger]
            live(t, off, size).contains_key(k) ==> off <= k && 1 <= live(t, off, size)[k] && k
                + live(t, off, size)[k] <= off + size,
    decreases t,
{
    if let Shape::Split(l, r) = t {
        lemma_pow2_half(size);
        lemma_live_range(*l, off, size / 2, b);
        lemma_live_range(*r, off + size / 2, size / 2, b);
        let ml = live(*l, off, size / 2);
        let mr = live(*r, off + size / 2, size / 2);
        assert forall|k: int| #[trigger] live(t, off, size).contains_key(k) implies off <= k && 1
            <= live(t, off, size)[k] && k + live(t, off, size)[k] <= off + size by {
            if mr.contains_key(k) {
                assert(live(t, off, size)[k] == mr[k]);
            } else {
                assert(live(t, off, size)[k] == ml[k]);
            }
        }
    }
}

/// Serving a request that fits: the served block was not allocated before,
/// it is now, it lies in the block, and its size leaves the free bytes.
pub proof fn lemma_take(t: Shape, size: nat, req: nat, b: nat, off: int)
    requires
        wf_shape(t, size, b),
        is_pow2(b),
        req >= 1,
        find(t, size, req) is Some,
    ensures
        wf_shape(take(t, size, req, b), size, b),
        !(take(t, size, req, b) is FreeLeaf),
        1 <= block_for(req, b),
        find(t, size, req)->0 + block_for(req, b) <= size,
        free_bytes(take(t, size, req, b), size) + block_for(req, b) == free_bytes(t, size),
        !live(t, off, size).contains_key(off + find(t, size, req)->0),
        live(take(t, size, req, b), off, size) == live(t, off, size).insert(
            off + find(t, size, req)->0,
            block_for(req, b),
        ),
    decreases t,
{
    let bf = block_for(req, b);
    match t {
        Shape::FreeLeaf => {
            lemma_split_down(size, req, b, off);
            assert(live(take(t, size, req, b), off, size) =~= live(t, off, size).insert(off, bf));
        },
        Shape::AllocatedLeaf => {},
        Shape::Split(l, r) => {
            let h = size / 2;
            lemma_pow2_half(size);
            lemma_live_range(*l, off, h, b);
            lemma_live_range(*r, off + h, h, b);
            let tk = take(t, size, req, b);
            if find(*l, h, req) is Some {
                let x = find(*l, h, req)->0;
                lemma_take(*l, h, req, b, off);
                assert(find(t, size, req) == Some(x));
                assert(!live(*r, off + h, h).contains_key(off + x));
                assert(live(tk, off, size) =~= live(t, off, size).insert(off + x, bf));
            } else {
                let y = find(*r, h, req)->0;
                lemma_take(*r, h, req, b, off + h);
                assert(find(t, size, req) == Some((y + h) as nat));
                assert(!live(*l, off, h).contains_key(off + h + y));
                assert(live(tk, off, size) =~= live(t, off, size).insert(off + h + y, bf));
            }
        },
    }
}

/// Freeing an address inside the block succeeds exactly when a block is
/// allocated there; it then leaves the allocated blocks and returns its
/// bytes to the free ones. A failed free changes nothing.
pub proof fn lemma_release(t: Shape, off: int, size: nat, b: nat, p: int)
    requires
        wf_shape(t, size, b),
        is_pow2(b),
        off <= p < off + size,
    ensures
        free_outcome(t, off, size, p) is Ok <==> live(t, off, size).contains_key(p),
        free_outcome(t, off, size, p) is Ok ==> {
            &&& free_outcome(t, off, size, p)->Ok_0 == live(t, off, size)[p]
            &&& wf_shape(release(t, off, size, p), size, b)
            &&& live(release(t, off, size, p), off, size) == live(t, off, size).remove(p)
            &&& free_bytes(release(t, off, size, p), size) == free_bytes(t, size) + live(
                t,
                off,
                size,
            )[p]
        },
        free_outcome(t, off, size, p) is Err ==> release(t, off, size, p) == t,
    decreases t,
{
    match t {
        Shape::AllocatedLeaf => {
            if p == off {
                assert(live(Shape::FreeLeaf, off, size) =~= live(t, off, size).remove(p));
            }
        },
        Shape::FreeLeaf => {},
        Shape::Split(l, r) => {
            let h = size / 2;
            lemma_pow2_half(size);
            lemma_live_range(*l, off, h, b);
            lemma_live_range(*r, off + h, h, b);
            let rel = release(t, off, size, p);
            if p < off + h {
                lemma_release(*l, off, h, b, p);
                assert(!live(*r, off + h, h).contains_key(p));
                let nl = release(*l, off, h, p);
                if free_outcome(*l, off, h, p) is Ok {
                    if nl is FreeLeaf && *r is FreeLeaf {
                        assert(live(rel, off, size) =~= live(t, off, size).remove(p));
                    } else {
                        assert(live(rel, off, size) =~= live(t, off, size).remove(p));
                    }
                }
            } else {
                lemma_release(*r, off + h, h, b, p);
                assert(!live(*l, off, h).contains_key(p));
                let nr = release(*r, off + h, h, p);
                if free_outcome(*r, off + h, h, p) is Ok {
                    if *l is FreeLeaf && nr is FreeLeaf {
                        assert(live(rel, off, size) =~= live(t, off, size).remove(p));
                    } else {
                        assert(live(rel, off, size) =~= live(t, off, size).remove(p));
                    }
                }
            }
        },
    }
}

/// A request that fits is no larger than the free bytes.
pub proof fn lemma_find_within_free(t: Shape, size: nat, req: nat)
    requires
        find(t, size, req) is Some,
    ensures
        req <= free_bytes(t, size),
    decreases t,
{
    if let Shape::Split(l, r) = t {
        if find(*l, size / 2, req) is Some {
            lemma_find_within_free(*l, size / 2, req);
        } else {
            lemma_find_within_free(*r, size / 2, req);
        }
    }
}

/// The free bytes of a block never exceed its size.
pub proof fn lemma_free_bytes_bound(t: Shape, size: nat, b: nat)
    requires
        wf_shape(t, size, b),
        is_pow2(b),
    ensures
        free_bytes(t, size) <= size,
    decreases t,
{
    if let Shape::Split(l, r) = t {
        lemma_pow2_half(size);
        lemma_free_bytes_bound(*l, size / 2, b);
        lemma_free_bytes_bound(*r, size / 2, b);
    }
}

/// Rounding up to a power of two less than doubles a positive number.
pub proof fn lemma_round_up_bounds(n: nat)
    requires
        n >= 1,
    ensures
        is_pow2(round_up_pow2(n)),
        n <= round_up_pow2(n) < 2 * n,
    decreases n,
{
    if n > 1 {
        let m = ((n + 1) / 2) as nat;
        lemma_round_up_bounds(m);
        let q = round_up_pow2(m);
        assert(round_up_pow2(n) == 2 * q);
        assert(is_pow2(2 * q)) by {
            assert((2 * q) / 2 == q);
        }
        if n % 2 == 1 {
            if q == n {
                assert(!is_pow2(n));
            }
        }
    }
}

/// Allocated blocks never overlap.
pub proof fn lemma_live_disjoint(t: Shape, off: int, size: nat, b: nat)
    requires
        wf_shape(t, size, b),
        is_pow2(b),
    ensures
        forall|a: int, c: int|
            #[trigger] live(t, off, size).contains_key(a) && #[trigger] live(
                t,
                off,
                size,
            ).contains_key(c) && a != c ==> a + live(t, off, size)[a] <= c || c + live(
                t,
                off,
                size,
            )[c] <= a,
    decreases t,
{
    if let Shape::Split(l, r) = t {
        let h = size / 2;
        lemma_pow2_half(size);
        lemma_live_range(*l, off, h, b);
        lemma_live_range(*r, off + h, h, b);
        lemma_live_disjoint(*l, off, h, b);
        lemma_live_disjoint(*r, off + h, h, b);
        let m = live(t, off, size);
        let ml = live(*l, off, h);
        let mr = live(*r, off + h, h);
        assert forall|a: int, c: int|
            #[trigger] m.contains_key(a) && #[trigger] m.contains_key(c) && a != c implies a
                + m[a] <= c || c + m[c] <= a by {
            if mr.contains_key(a) {
                assert(m[a] == mr[a]);
            } else {
                assert(m[a] == ml[a]);
            }
            if mr.contains_key(c) {
                assert(m[c] == mr[c]);
            } else {
                assert(m[c] == ml[c]);
            }
        }
    }
}

/// A block with nothing allocated in it is a single free block: every pair
/// of free buddies has been merged.
pub proof fn lemma_nothing_live_is_free_leaf(t: Shape, off: int, size: nat, b: nat)
    requires
        wf_shape(t, size, b),
        live(t, off, size) == Map::<int, nat>::empty(),
    ensures
        t == Shape::FreeLeaf,
        free_bytes(t, size) == size,
    decreases t,
{
    match t {
        Shape::AllocatedLeaf => {
            assert(live(t, off, size).contains_key(off));
        },
        Shape::FreeLeaf => {},
        Shape::Split(l, r) => {
            let ml = live(*l, off, size / 2);
            let mr = live(*r, off + size / 2, size / 2);
            assert(ml =~= Map::empty()) by {
                assert forall|k: int| !ml.contains_key(k) by {
                    assert(!live(t, off, size).contains_key(k));
                }
            }
            assert(mr =~= Map::empty()) by {
                assert forall|k: int| !mr.contains_key(k) by {
                    assert(!live(t, off, size).contains_key(k));
                }
            }
            lemma_nothing_live_is_free_leaf(*l, off, size / 2, b);
            lemma_nothing_live_is_free_leaf(*r, off + size / 2, size / 2, b);
        },
    }
}

/// Freeing the block that a request was just served from succeeds, with the
/// size of the served block, and brings back the state from before the
/// request.
pub proof fn lemma_free_undoes_alloc(t: Shape, off: int, size: nat, req: nat, b: nat)
    requires
        wf_shape(t, size, b),
        is_pow2(b),
        req >= 1,
        find(t, size, req) is Some,
    ensures
        free_outcome(take(t, size, req, b), off, size, off + find(t, size, req)->0) == Ok::<
            nat,
            FreeError,
        >(block_for(req, b)),
        release(take(t, size, req, b), off, size, off + find(t, size, req)->0) == t,
    decreases t,
{
    lemma_take(t, size, req, b, off);
    match t {
        Shape::FreeLeaf => {
            lemma_free_undoes_split_down(size, req, b, off);
        },
        Shape::AllocatedLeaf => {},
        Shape::Split(l, r) => {
            let h = size / 2;
            lemma_pow2_half(size);
            if find(*l, h, req) is Some {
                lemma_take(*l, h, req, b, off);
                lemma_free_undoes_alloc(*l, off, h, req, b);
            } else {
                lemma_take(*r, h, req, b, off + h);
                lemma_free_undoes_alloc(*r, off + h, h, req, b);
            }
        },
    }
}

/// Freeing the block that a split-down served merges the halves back.
pub proof fn lemma_free_undoes_split_down(size: nat, req: nat, b: nat, off: int)
    requires
        is_pow2(size),
        is_pow2(b),
        b <= size,
        1 <= req <= size,
    ensures
        free_outcome(split_down(size, req, b), off, size, off) == Ok::<nat, FreeError>(
            block_for(req, b),
        ),
        release(split_down(size, req, b), off, size, off) == Shape::FreeLeaf,
    decreases size,
{
    if req > size / 2 || size <= b {
        lemma_block_for_bounds(req, b, size);
    } else {
        lemma_pow2_half(size);
        lemma_pow2_le_half(b, size);
        lemma_free_undoes_split_down(size / 2, req, b, off);
    }
}

/// The state after serving each request of `reqs` in turn.
pub open spec fn take_all(t: Shape, size: nat, reqs: Seq<nat>, b: nat) -> Shape
    decreases reqs.len(),
{
    if reqs.len() == 0 {
        t
    } else {
        take(take_all(t, size, reqs.drop_last(), b), size, reqs.last(), b)
    }
}

/// Whether each request of `reqs`, served in turn, is positive and fits.
pub open spec fn all_fit(t: Shape, size: nat, reqs: Seq<nat>, b: nat) -> bool
    decreases reqs.len(),
{
    reqs.len() == 0 || {
        &&& all_fit(t, size, reqs.drop_last(), b)
        &&& reqs.last() >= 1
        &&& find(take_all(t, size, reqs.drop_last(), b), size, reqs.last()) is Some
    }
}

/// The total size of the blocks that serve `reqs`.
pub open spec fn sum_blocks(reqs: Seq<nat>, b: nat) -> nat
    decreases reqs.len(),
{
    if reqs.len() == 0 {
        0
    } else {
        sum_blocks(reqs.drop_last(), b) + block_for(reqs.last(), b)
    }
}

/// After requests that all succeed, the free bytes have dropped by the sum of
/// the served block sizes, each its request rounded up to a power of two and
/// at least `b`.
pub proof fn lemma_allocations_sum(t: Shape, size: nat, reqs: Seq<nat>, b: nat)
    requires
        wf_shape(t, size, b),
        is_pow2(b),
        all_fit(t, size, reqs, b),
    ensures
        wf_shape(take_all(t, size, reqs, b), size, b),
        free_bytes(take_all(t, size, reqs, b), size) + sum_blocks(reqs, b) == free_bytes(t, size),
    decreases reqs.len(),
{
    if reqs.len() > 0 {
        lemma_allocations_sum(t, size, reqs.drop_last(), b);
        lemma_take(take_all(t, size, reqs.drop_last(), b), size, reqs.last(), b, 0);
    }
}

/// A power of two divides every power of two that is at least as large.
pub proof fn lemma_pow2_divides(a: nat, c: nat)
    requires
        is_pow2(a),
        is_pow2(c),
        a <= c,
    ensures
        c % a == 0,
    decreases c,
{
    if a == c {
        vstd::arithmetic::div_mod::lemma_mod_multiples_basic(1, a as int);
    } else {
        lemma_pow2_le_half(a, c);
        lemma_pow2_half(c);
        lemma_pow2_divides(a, c / 2);
        let k = (c / 2) / a;
        vstd::arithmetic::div_mod::lemma_fundamental_div_mod((c / 2) as int, a as int);
        assert(c == (2 * k) * a) by (nonlinear_arith)
            requires
                c == 2 * (c / 2),
                (c / 2) as int == a * k + 0,
        ;
        vstd::arithmetic::div_mod::lemma_mod_multiples_basic((2 * k) as int, a as int);
    }
}

/// A served block starts at a multiple of its own size, counted from the
/// start of the block it was served from.
pub proof fn lemma_find_aligned(t: Shape, size: nat, req: nat, b: nat)
    requires
        wf_shape(t, size, b),
        is_pow2(b),
        req >= 1,
        find(t, size, req) is Some,
    ensures
        find(t, size, req)->0 % block_for(req, b) == 0,
    decreases t,
{
    let bf = block_for(req, b);
    lemma_take(t, size, req, b, 0);
    if let Shape::Split(l, r) = t {
        let h = size / 2;
        lemma_pow2_half(size);
        if find(*l, h, req) is Some {
            lemma_find_aligned(*l, h, req, b);
        } else {
            let y = find(*r, h, req)->0;
            lemma_take(*r, h, req, b, 0);
            lemma_find_aligned(*r, h, req, b);
            lemma_round_up_bounds(if req >= b { req } else { b });
            lemma_pow2_divides(bf, h);
            let i = y / bf;
            let j = h / bf;
            vstd::arithmetic::div_mod::lemma_fundamental_div_mod(y as int, bf as int);
            vstd::arithmetic::div_mod::lemma_fundamental_div_mod(h as int, bf as int);
            assert(y + h == (i + j) * bf) by (nonlinear_arith)
                requires
                    y as int == bf * i + 0,
                    h as int == bf * j + 0,
            ;
            vstd::arithmetic::div_mod::lemma_mod_multiples_basic((i + j) as int, bf as int);
        }
    } else {
        vstd::arithmetic::div_mod::lemma_mod_multiples_basic(0, bf as int);
    }
}

/// A block of `size` bytes never holds more than `2 * (size / b) - 2` nodes
/// below its root.
pub proof fn lemma_cells_bound(t: Shape, size: nat, b: nat)
    requires
        wf_shape(t, size, b),
        is_pow2(b),
    ensures
        cells_of(t) + 2 <= 2 * (size / b),
    decreases t,
{
    if let Shape::Split(l, r) = t {
        let h = size / 2;
        lemma_pow2_half(size);
        lemma_cells_bound(*l, h, b);
        lemma_cells_bound(*r, h, b);
        lemma_pow2_divides(b, h);
        let k = h / b;
        vstd::arithmetic::div_mod::lemma_fundamental_div_mod(h as int, b as int);
        assert(size / b == 2 * k) by (nonlinear_arith)
            requires
                h as int == b * k + 0,
                size == 2 * h,
                b > 0,
        ;
    } else {
        assert(size / b >= 1) by (nonlinear_arith)
            requires
                0 < b <= size,
        ;
    }
}

/// A request that fits nowhere leaves the block as it was.
pub proof fn lemma_take_unfound(t: Shape, size: nat, req: nat, b: nat)
    requires
        find(t, size, req) is None,
    ensures
        take(t, size, req, b) == t,
    decreases t,
{
    if let Shape::Split(l, r) = t {
        if size > req {
            lemma_take_unfound(*l, size / 2, req, b);
            lemma_take_unfound(*r, size / 2, req, b);
        }
    }
}

} // verus!
