//! Substring presence kernels.
//!
//! The width-specialised kernels (`search_epi8`, `search_epi16`,
//! `search_epi32`) count how many width-aligned positions of a 32-byte
//! window agree with a 32-byte comparison register; `search` broadcasts a
//! 1-, 2-, or 4-byte needle across such a register and reports whether any
//! aligned position matched.  `memmem` is the general membership test used
//! by the sampler and the executor: it checks every offset, aligned or
//! not, and is exact for every needle.

use vstd::prelude::*;

verus! {

/// The needle `n` occurs in `h` starting at offset `i`.
pub open spec fn occurs_at(h: Seq<u8>, n: Seq<u8>, i: int) -> bool {
    0 <= i && i + n.len() <= h.len() && h.subrange(i, i + n.len() as int) == n
}

/// The needle `n` occurs somewhere in `h` as a contiguous subsequence.
pub open spec fn occurs(h: Seq<u8>, n: Seq<u8>) -> bool {
    exists|i: int| occurs_at(h, n, i)
}

/// Needle widths the width-specialised kernels support.
pub open spec fn valid_width(len: nat) -> bool {
    len == 1 || len == 2 || len == 4
}

/// Lane `j` of width `w` holds the same bytes in `a` and `b`.
pub open spec fn lanes_eq(a: Seq<u8>, b: Seq<u8>, w: int, j: int) -> bool {
    a.subrange(j * w, (j + 1) * w) == b.subrange(j * w, (j + 1) * w)
}

/// Number of lanes of width `w` below `upto` that agree in `a` and `b`.
pub open spec fn count_eq_lanes(a: Seq<u8>, b: Seq<u8>, w: int, upto: int) -> int
    decreases upto,
{
    if upto <= 0 {
        0
    } else {
        count_eq_lanes(a, b, w, upto - 1) + if lanes_eq(a, b, w, upto - 1) {
            1int
        } else {
            0int
        }
    }
}

/// The needle stands at some `|n|`-aligned position of the 32-byte window.
pub open spec fn window_match(reg: Seq<u8>, n: Seq<u8>) -> bool {
    valid_width(n.len()) && exists|j: int|
        0 <= j && (j + 1) * n.len() <= 32 && #[trigger] reg.subrange(
            j * n.len() as int,
            (j + 1) * n.len() as int,
        ) == n
}

/// A lane count is positive exactly when some lane below `upto` agrees.
proof fn lemma_count_pos(a: Seq<u8>, b: Seq<u8>, w: int, upto: int)
    ensures
        count_eq_lanes(a, b, w, upto) > 0 <==> exists|j: int| 0 <= j < upto && lanes_eq(a, b, w, j),
        count_eq_lanes(a, b, w, upto) >= 0,
    decreases upto,
{
    if upto > 0 {
        lemma_count_pos(a, b, w, upto - 1);
    }
}

/// Compare `len` bytes of `a` and `b` starting at `start`.
fn range_eq(a: &Vec<u8>, b: &Vec<u8>, start: usize, len: usize) -> (r: bool)
    requires
        start + len <= a.len(),
        start + len <= b.len(),
    ensures
        r == (a@.subrange(start as int, (start + len) as int) == b@.subrange(
            start as int,
            (start + len) as int,
        )),
{
    let mut t: usize = 0;
    while t < len
        invariant
            t <= len,
            start + len <= a.len(),
            start + len <= b.len(),
            forall|u: int| 0 <= u < t ==> a@[start + u] == #[trigger] b@[start + u],
        decreases len - t,
    {
        if a[start + t] != b[start + t] {
            proof {
                let sa = a@.subrange(start as int, (start + len) as int);
                let sb = b@.subrange(start as int, (start + len) as int);
                assert(sa[t as int] == a@[start + t]);
                assert(sb[t as int] == b@[start + t]);
            }
            return false;
        }
        t = t + 1;
    }
    proof {
        let sa = a@.subrange(start as int, (start + len) as int);
        let sb = b@.subrange(start as int, (start + len) as int);
        assert forall|u: int| 0 <= u < len implies sa[u] == sb[u] by {
            assert(a@[start + u] == b@[start + u]);
        }
        assert(sa =~= sb);
    }
    true
}

/// True iff `n` occurs in `h` at exactly offset `i`.
fn match_at(h: &Vec<u8>, n: &Vec<u8>, i: usize) -> (r: bool)
    requires
        i + n.len() <= h.len(),
    ensures
        r == occurs_at(h@, n@, i as int),
{
    let mut t: usize = 0;
    while t < n.len()
        invariant
            t <= n@.len(),
            i + n.len() <= h.len(),
            forall|u: int| 0 <= u < t ==> h@[i + u] == #[trigger] n@[u],
        decreases n@.len() - t,
    {
        if h[i + t] != n[t] {
            proof {
                if occurs_at(h@, n@, i as int) {
                    assert(h@.subrange(i as int, i + n@.len() as int)[t as int] == h@[i + t]);
                }
            }
            return false;
        }
        t = t + 1;
    }
    proof {
        assert(h@.subrange(i as int, i + n@.len() as int) =~= n@);
    }
    true
}

/// Membership test used by the sampler and the executor: true iff the
/// needle occurs in the haystack at any offset, aligned or not.  The
/// scan is exact for every needle; the width-specialised kernels above
/// serve the 1-, 2- and 4-byte needles of the filter pipeline.
pub fn memmem(reg: &Vec<u8>, base: &Vec<u8>) -> (r: bool)
    ensures
        r == occurs(reg@, base@),
{
    if base.len() == 0 {
        proof {
            assert(reg@.subrange(0, 0) =~= base@);
            assert(occurs_at(reg@, base@, 0));
        }
        return true;
    }
    if base.len() > reg.len() {
        return false;
    }
    let last = reg.len() - base.len();
    let mut i: usize = 0;
    while i <= last
        invariant
            1 <= base.len() <= reg.len(),
            last == reg.len() - base.len(),
            i <= last + 1,
            forall|j: int| 0 <= j < i ==> !occurs_at(reg@, base@, j),
        decreases last + 1 - i,
    {
        if match_at(reg, base, i) {
            return true;
        }
        i = i + 1;
    }
    false
}

/// Find-first-set: the 1-based index of the lowest set bit, or 0 when no
/// bit is set.
pub fn ffs(x: i32) -> (r: i32)
    ensures
        x == 0 ==> r == 0,
        x != 0 ==> 1 <= r <= 32,
        x != 0 ==> (x >> ((r - 1) as u32)) & 1i32 == 1i32,
        x != 0 ==> forall|t: u32| t < (r - 1) as u32 ==> (x >> t) & 1i32 != 1i32,
{
    if x == 0 {
        return 0;
    }
    proof {
        assert(((x as u32) as u64) & (((1u64 << 0u32) - 1) as u64) == 0) by (bit_vector);
    }
    let mut k: u32 = 0;
    while k < 32
        invariant
            k <= 32,
            x != 0,
            ((x as u32) as u64) & (((1u64 << k) - 1) as u64) == 0,
            forall|t: u32| t < k ==> (x >> t) & 1i32 != 1i32,
        decreases 32 - k,
    {
        if (x >> k) & 1i32 == 1i32 {
            return (k + 1) as i32;
        }
        proof {
            assert(((x as u32) as u64) & (((1u64 << (k + 1)) - 1) as u64) == 0) by (bit_vector)
                requires
                    k < 32,
                    ((x as u32) as u64) & (((1u64 << k) - 1) as u64) == 0,
                    !((x >> k) & 1i32 == 1i32),
            ;
        }
        k = k + 1;
    }
    proof {
        assert(x == 0) by (bit_vector)
            requires
                ((x as u32) as u64) & (((1u64 << 32u32) - 1) as u64) == 0,
        ;
    }
    0
}

/// Count the 8-bit lanes in which the two 32-byte registers agree.
pub fn search_epi8(reg: &Vec<u8>, base: &Vec<u8>) -> (c: u32)
    requires
        reg@.len() == 32,
        base@.len() == 32,
    ensures
        c == count_eq_lanes(reg@, base@, 1, 32),
{
    let mut c: u32 = 0;
    let mut j: usize = 0;
    while j < 32
        invariant
            j <= 32,
            reg@.len() == 32,
            base@.len() == 32,
            c == count_eq_lanes(reg@, base@, 1, j as int),
            c <= j,
        decreases 32 - j,
    {
        if range_eq(reg, base, j, 1) {
            c = c + 1;
        }
        j = j + 1;
    }
    c
}

/// Count the 16-bit lanes in which the two 32-byte registers agree.
pub fn search_epi16(reg: &Vec<u8>, base: &Vec<u8>) -> (c: u32)
    requires
        reg@.len() == 32,
        base@.len() == 32,
    ensures
        c == count_eq_lanes(reg@, base@, 2, 16),
{
    let mut c: u32 = 0;
    let mut j: usize = 0;
    while j < 16
        invariant
            j <= 16,
            reg@.len() == 32,
            base@.len() == 32,
            c == count_eq_lanes(reg@, base@, 2, j as int),
            c <= j,
        decreases 16 - j,
    {
        if range_eq(reg, base, 2 * j, 2) {
            c = c + 1;
        }
        j = j + 1;
    }
    c
}

/// Count the 32-bit lanes in which the two 32-byte registers agree.
pub fn search_epi32(reg: &Vec<u8>, base: &Vec<u8>) -> (c: u32)
    requires
        reg@.len() == 32,
        base@.len() == 32,
    ensures
        c == count_eq_lanes(reg@, base@, 4, 8),
{
    let mut c: u32 = 0;
    let mut j: usize = 0;
    while j < 8
        invariant
            j <= 8,
            reg@.len() == 32,
            base@.len() == 32,
            c == count_eq_lanes(reg@, base@, 4, j as int),
            c <= j,
        decreases 8 - j,
    {
        if range_eq(reg, base, 4 * j, 4) {
            c = c + 1;
        }
        j = j + 1;
    }
    c
}

/// Broadcast-fill a register: replicate the needle so that every
/// `|n|`-aligned position of the 32-byte result carries a copy.
fn broadcast_needle(base: &Vec<u8>) -> (bc: Vec<u8>)
    requires
        valid_width(base@.len()),
    ensures
        bc@.len() == 32,
        forall|j: int|
            0 <= j && (j + 1) * base@.len() <= 32 ==> #[trigger] bc@.subrange(
                j * base@.len() as int,
                (j + 1) * base@.len() as int,
            ) =~= base@,
{
    let w = base.len();
    let mut bc: Vec<u8> = Vec::new();
    if w == 1 {
        let mut j: usize = 0;
        while j < 32
            invariant
                base@.len() == 1,
                j <= 32,
                bc@.len() == j,
                forall|u: int| 0 <= u < j ==> bc@[u] == base@[0],
            decreases 32 - j,
        {
            bc.push(base[0]);
            j = j + 1;
        }
        proof {
            assert forall|j: int| 0 <= j && (j + 1) * 1 <= 32 implies #[trigger] bc@.subrange(j, j + 1)
                =~= base@ by {}
        }
    } else if w == 2 {
        let mut j: usize = 0;
        while j < 16
            invariant
                base@.len() == 2,
                j <= 16,
                bc@.len() == 2 * j,
                forall|u: int| 0 <= u < 2 * j ==> #[trigger] bc@[u] == base@[u % 2],
            decreases 16 - j,
        {
            let ghost pre = bc@;
            bc.push(base[0]);
            bc.push(base[1]);
            proof {
                assert forall|u: int| 0 <= u < 2 * (j + 1) implies #[trigger] bc@[u] == base@[u % 2] by {
                    if u < 2 * j {
                        assert(bc@[u] == pre[u]);
                    } else if u == 2 * j {
                        assert(u % 2 == 0);
                    } else {
                        assert(u % 2 == 1);
                    }
                }
            }
            j = j + 1;
        }
        proof {
            assert forall|j: int| 0 <= j && (j + 1) * 2 <= 32 implies #[trigger] bc@.subrange(2 * j, 2 * j + 2)
                =~= base@ by {
                assert(bc@.subrange(2 * j, 2 * j + 2)[0] == bc@[2 * j]);
                assert(bc@.subrange(2 * j, 2 * j + 2)[1] == bc@[2 * j + 1]);
                assert((2 * j) % 2 == 0);
                assert((2 * j + 1) % 2 == 1);
            }
        }
    } else {
        let mut j: usize = 0;
        while j < 8
            invariant
                base@.len() == 4,
                j <= 8,
                bc@.len() == 4 * j,
                forall|u: int| 0 <= u < 4 * j ==> #[trigger] bc@[u] == base@[u % 4],
            decreases 8 - j,
        {
            let ghost pre = bc@;
            bc.push(base[0]);
            bc.push(base[1]);
            bc.push(base[2]);
            bc.push(base[3]);
            proof {
                assert forall|u: int| 0 <= u < 4 * (j + 1) implies #[trigger] bc@[u] == base@[u % 4] by {
                    if u < 4 * j {
                        assert(bc@[u] == pre[u]);
                    } else if u == 4 * j {
                        assert(u % 4 == 0);
                    } else if u == 4 * j + 1 {
                        assert(u % 4 == 1);
                    } else if u == 4 * j + 2 {
                        assert(u % 4 == 2);
                    } else {
                        assert(u % 4 == 3);
                    }
                }
            }
            j = j + 1;
        }
        proof {
            assert forall|j: int| 0 <= j && (j + 1) * 4 <= 32 implies #[trigger] bc@.subrange(4 * j, 4 * j + 4)
                =~= base@ by {
                assert(bc@.subrange(4 * j, 4 * j + 4)[0] == bc@[4 * j]);
                assert(bc@.subrange(4 * j, 4 * j + 4)[1] == bc@[4 * j + 1]);
                assert(bc@.subrange(4 * j, 4 * j + 4)[2] == bc@[4 * j + 2]);
                assert(bc@.subrange(4 * j, 4 * j + 4)[3] == bc@[4 * j + 3]);
                assert((4 * j) % 4 == 0);
                assert((4 * j + 1) % 4 == 1);
                assert((4 * j + 2) % 4 == 2);
                assert((4 * j + 3) % 4 == 3);
            }
        }
    }
    bc
}

/// Width dispatch over one 32-byte window: broadcast the needle, run the
/// matching kernel, and report whether any aligned position matched.
/// Unsupported widths never match.
pub fn search(reg: &Vec<u8>, base: &Vec<u8>) -> (r: bool)
    requires
        reg@.len() == 32,
    ensures
        r == window_match(reg@, base@),
{
    let w = base.len();
    if w == 1 || w == 2 || w == 4 {
        let bc = broadcast_needle(base);
        let c = if w == 1 {
            search_epi8(reg, &bc)
        } else if w == 2 {
            search_epi16(reg, &bc)
        } else {
            search_epi32(reg, &bc)
        };
        proof {
            let wi = w as int;
            lemma_count_pos(reg@, bc@, wi, 32int / wi);
            assert forall|j: int| 0 <= j < 32int / wi implies (lanes_eq(reg@, bc@, wi, j) <==> reg@
                .subrange(j * wi, (j + 1) * wi) == base@) by {
                assert(bc@.subrange(j * wi, (j + 1) * wi) =~= base@);
            }
            assert((c > 0) == window_match(reg@, base@)) by {
                if c > 0 {
                    let j = choose|j: int| 0 <= j < 32int / wi && lanes_eq(reg@, bc@, wi, j);
                    assert((j + 1) * wi <= 32);
                }
                if window_match(reg@, base@) {
                    let j = choose|j: int|
                        0 <= j && (j + 1) * wi <= 32 && #[trigger] reg@.subrange(
                            j * wi,
                            (j + 1) * wi,
                        ) == base@;
                    assert(j < 32int / wi);
                    assert(lanes_eq(reg@, bc@, wi, j));
                }
            }
        }
        c > 0
    } else {
        false
    }
}

} // verus!
