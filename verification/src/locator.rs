//! Locating ZPAQ block headers in a byte stream.
//!
//! Four rolling hashes run over the stream; each multiplies its state by a
//! multiple of four before adding the next byte, so after sixteen bytes the
//! state no longer depends on anything before those sixteen bytes.  A block
//! header is found where all four hashes reach their target values at once.

use vstd::prelude::*;

verus! {

/// Initial states of the four rolling hashes.
pub const SEED_1: u32 = 0x3D49B113;
pub const SEED_2: u32 = 0x29EB7F93;
pub const SEED_3: u32 = 0x2614BE13;
pub const SEED_4: u32 = 0x3828EB13;

/// Multipliers of the four rolling hashes.
pub const MUL_1: u32 = 12;
pub const MUL_2: u32 = 20;
pub const MUL_3: u32 = 28;
pub const MUL_4: u32 = 44;

/// Values that the four hashes take right after a block header.
pub const TARGET_1: u32 = 0xB16B88F1;
pub const TARGET_2: u32 = 0xFF5376F1;
pub const TARGET_3: u32 = 0x72AC5BF1;
pub const TARGET_4: u32 = 0x2F909AF1;

/// Length in bytes of the pattern that the hashes recognise.
pub const LOCATOR_LEN: usize = 16;

/// One step of a rolling hash: multiply by `m` and add the byte, modulo 2^32.
pub open spec fn mix(h: u32, c: u8, m: u32) -> u32 {
    ((h * m + c) % 0x1_0000_0000) as u32
}

/// The state of a rolling hash with multiplier `m`, started at `h`,
/// after it has consumed `s`.
pub open spec fn hash_run(h: u32, s: Seq<u8>, m: u32) -> u32
    decreases s.len(),
{
    if s.len() == 0 {
        h
    } else {
        mix(hash_run(h, s.drop_last(), m), s.last(), m)
    }
}

/// The four hash states after the stream `s`, each started at its seed.
pub open spec fn locator_hashes(s: Seq<u8>) -> (u32, u32, u32, u32) {
    (
        hash_run(SEED_1, s, MUL_1),
        hash_run(SEED_2, s, MUL_2),
        hash_run(SEED_3, s, MUL_3),
        hash_run(SEED_4, s, MUL_4),
    )
}

/// Whether the four hash states after `s` are all at their targets.
#[verifier::opaque]
pub open spec fn hits_target(s: Seq<u8>) -> bool {
    locator_hashes(s) == (TARGET_1, TARGET_2, TARGET_3, TARGET_4)
}

/// Whether the sixteen bytes `w` form a block header pattern.
pub open spec fn is_locator(w: Seq<u8>) -> bool {
    w.len() == LOCATOR_LEN && hits_target(w)
}

/// The offsets at which block headers start in `data`, in increasing order:
/// one offset `n - 16` for each prefix of length `n >= 16` after which the
/// hashes hit their targets.
pub open spec fn block_offsets(data: Seq<u8>) -> Seq<usize>
    decreases data.len(),
{
    if data.len() == 0 {
        Seq::empty()
    } else {
        let rest = block_offsets(data.drop_last());
        if data.len() >= LOCATOR_LEN && hits_target(data) {
            rest.push((data.len() - LOCATOR_LEN) as usize)
        } else {
            rest
        }
    }
}

/// Whether the low `2 * k` bits of `a` and `b` agree.
pub open spec fn low_bits_agree(a: u32, b: u32, k: u32) -> bool {
    (a ^ b) << ((32 - 2 * k) as u32) == 0
}

proof fn lemma_mix_spreads_agreement_12(x: u32, y: u32, c: u8, k: u32)
    by (bit_vector)
    requires
        k < 16,
        (x ^ y) << ((32 - 2 * k) as u32) == 0,
    ensures
        (((x * 12 + c) % 0x1_0000_0000) as u32 ^ ((y * 12 + c) % 0x1_0000_0000) as u32) << ((32 - 2 * (k + 1)) as u32) == 0,
{
}

proof fn lemma_mix_spreads_agreement_20(x: u32, y: u32, c: u8, k: u32)
    by (bit_vector)
    requires
        k < 16,
        (x ^ y) << ((32 - 2 * k) as u32) == 0,
    ensures
        (((x * 20 + c) % 0x1_0000_0000) as u32 ^ ((y * 20 + c) % 0x1_0000_0000) as u32) << ((32 - 2 * (k + 1)) as u32) == 0,
{
}

proof fn lemma_mix_spreads_agreement_28(x: u32, y: u32, c: u8, k: u32)
    by (bit_vector)
    requires
        k < 16,
        (x ^ y) << ((32 - 2 * k) as u32) == 0,
    ensures
        (((x * 28 + c) % 0x1_0000_0000) as u32 ^ ((y * 28 + c) % 0x1_0000_0000) as u32) << ((32 - 2 * (k + 1)) as u32) == 0,
{
}

proof fn lemma_mix_spreads_agreement_44(x: u32, y: u32, c: u8, k: u32)
    by (bit_vector)
    requires
        k < 16,
        (x ^ y) << ((32 - 2 * k) as u32) == 0,
    ensures
        (((x * 44 + c) % 0x1_0000_0000) as u32 ^ ((y * 44 + c) % 0x1_0000_0000) as u32) << ((32 - 2 * (k + 1)) as u32) == 0,
{
}

proof fn lemma_full_agreement(a: u32, b: u32)
    by (bit_vector)
    requires
        (a ^ b) << 0u32 == 0,
    ensures
        a == b,
{
}

proof fn lemma_no_agreement_needed(a: u32, b: u32)
    by (bit_vector)
    ensures
        (a ^ b) << 32u32 == 0,
{
}

/// After `k` bytes, two runs of the same hash from different states agree
/// on their low `2 * min(k, 16)` bits.
proof fn lemma_runs_agree(x: u32, y: u32, s: Seq<u8>, m: u32)
    requires
        m == 12 || m == 20 || m == 28 || m == 44,
    ensures
        s.len() < 16 ==> low_bits_agree(hash_run(x, s, m), hash_run(y, s, m), s.len() as u32),
        s.len() >= 16 ==> hash_run(x, s, m) == hash_run(y, s, m),
    decreases s.len(),
{
    if s.len() == 0 {
        lemma_no_agreement_needed(x, y);
    } else {
        let a = hash_run(x, s.drop_last(), m);
        let b = hash_run(y, s.drop_last(), m);
        lemma_runs_agree(x, y, s.drop_last(), m);
        if s.len() <= 16 {
            let k = (s.len() - 1) as u32;
            if m == 12 {
                lemma_mix_spreads_agreement_12(a, b, s.last(), k);
            } else if m == 20 {
                lemma_mix_spreads_agreement_20(a, b, s.last(), k);
            } else if m == 28 {
                lemma_mix_spreads_agreement_28(a, b, s.last(), k);
            } else {
                lemma_mix_spreads_agreement_44(a, b, s.last(), k);
            }
            if s.len() == 16 {
                lemma_full_agreement(hash_run(x, s, m), hash_run(y, s, m));
            }
        }
    }
}

/// Running a hash over `p + w` is running it over `p`, then over `w`.
proof fn lemma_run_concat(h: u32, p: Seq<u8>, w: Seq<u8>, m: u32)
    ensures
        hash_run(h, p + w, m) == hash_run(hash_run(h, p, m), w, m),
    decreases w.len(),
{
    if w.len() == 0 {
        assert(p + w =~= p);
    } else {
        assert((p + w).drop_last() =~= p + w.drop_last());
        lemma_run_concat(h, p, w.drop_last(), m);
    }
}

/// Once a stream has at least sixteen bytes, the hash states depend only on
/// its last sixteen bytes.
pub proof fn lemma_hashes_see_last_window(s: Seq<u8>)
    requires
        s.len() >= LOCATOR_LEN,
    ensures
        locator_hashes(s) == locator_hashes(s.skip(s.len() - LOCATOR_LEN)),
{
    let p = s.take(s.len() - LOCATOR_LEN);
    let w = s.skip(s.len() - LOCATOR_LEN);
    assert(p + w =~= s);
    lemma_run_concat(SEED_1, p, w, MUL_1);
    lemma_run_concat(SEED_2, p, w, MUL_2);
    lemma_run_concat(SEED_3, p, w, MUL_3);
    lemma_run_concat(SEED_4, p, w, MUL_4);
    lemma_runs_agree(hash_run(SEED_1, p, MUL_1), SEED_1, w, MUL_1);
    lemma_runs_agree(hash_run(SEED_2, p, MUL_2), SEED_2, w, MUL_2);
    lemma_runs_agree(hash_run(SEED_3, p, MUL_3), SEED_3, w, MUL_3);
    lemma_runs_agree(hash_run(SEED_4, p, MUL_4), SEED_4, w, MUL_4);
}

/// Whether `s` is strictly increasing.
pub open spec fn strictly_increasing(s: Seq<usize>) -> bool {
    forall|i: int, j: int| 0 <= i < j < s.len() ==> s[i] < s[j]
}

/// Block offsets come in strictly increasing order, and each leaves room
/// for a whole sixteen-byte header inside the data.
pub proof fn lemma_offsets_sorted(data: Seq<u8>)
    requires
        data.len() <= usize::MAX,
    ensures
        strictly_increasing(block_offsets(data)),
        forall|i: int|
            0 <= i < block_offsets(data).len() ==> #[trigger] block_offsets(data)[i] + LOCATOR_LEN
                <= data.len(),
        block_offsets(data).len() <= data.len(),
    decreases data.len(),
{
    if data.len() > 0 {
        let prev = data.drop_last();
        lemma_offsets_sorted(prev);
        let rest = block_offsets(prev);
        if data.len() >= LOCATOR_LEN && hits_target(data) {
            let r = rest.push((data.len() - LOCATOR_LEN) as usize);
            assert forall|i: int, j: int| 0 <= i < j < r.len() implies r[i] < r[j] by {
                if j < rest.len() {
                    assert(r[i] == rest[i] && r[j] == rest[j]);
                } else {
                    assert(r[i] == rest[i]);
                    assert(rest[i] + LOCATOR_LEN <= prev.len());
                }
            }
        }
    }
}

/// A block header starts at offset `o` exactly when the sixteen bytes at
/// `o` form the header pattern: what comes before them plays no part.
pub proof fn lemma_offset_iff_locator(data: Seq<u8>, o: usize)
    requires
        data.len() <= usize::MAX,
    ensures
        block_offsets(data).contains(o) <==> (o + LOCATOR_LEN <= data.len() && is_locator(
            data.subrange(o as int, o + LOCATOR_LEN),
        )),
    decreases data.len(),
{
    if data.len() > 0 {
        let prev = data.drop_last();
        lemma_offset_iff_locator(prev, o);
        if o + LOCATOR_LEN <= prev.len() {
            assert(prev.subrange(o as int, o + LOCATOR_LEN) =~= data.subrange(
                o as int,
                o + LOCATOR_LEN,
            ));
        }
        let rest = block_offsets(prev);
        if data.len() >= LOCATOR_LEN {
            lemma_target_sees_last_window(data);
            assert(data.skip(data.len() - LOCATOR_LEN) =~= data.subrange(
                data.len() - LOCATOR_LEN,
                data.len() as int,
            ));
            if hits_target(data) {
                assert(rest.push((data.len() - LOCATOR_LEN) as usize).contains(o) <==> (
                rest.contains(o) || o == data.len() - LOCATOR_LEN)) by {
                    let r = rest.push((data.len() - LOCATOR_LEN) as usize);
                    if r.contains(o) {
                        let i = choose|i: int| 0 <= i < r.len() && r[i] == o;
                        if i < rest.len() {
                            assert(rest[i] == o);
                        }
                    }
                    if rest.contains(o) {
                        let i = choose|i: int| 0 <= i < rest.len() && rest[i] == o;
                        assert(r[i] == o);
                    }
                    if o == data.len() - LOCATOR_LEN {
                        assert(r[rest.len() as int] == o);
                    }
                }
            }
        }
    }
}

/// Dropping the first `k` bytes of a stream moves every block offset at or
/// after `k` back by `k`, and loses those before `k`.
pub proof fn lemma_offsets_after_drop(data: Seq<u8>, k: usize, o: usize)
    requires
        data.len() <= usize::MAX,
        k <= data.len(),
        o + k <= usize::MAX,
    ensures
        block_offsets(data.skip(k as int)).contains(o) <==> block_offsets(data).contains(
            (o + k) as usize,
        ),
{
    lemma_offset_iff_locator(data.skip(k as int), o);
    lemma_offset_iff_locator(data, (o + k) as usize);
    if o + k + LOCATOR_LEN <= data.len() {
        assert(data.skip(k as int).subrange(o as int, o + LOCATOR_LEN) =~= data.subrange(
            o + k,
            o + k + LOCATOR_LEN,
        ));
    }
}

/// The offsets found in a prefix of a stream are the offsets of the whole
/// stream whose header lies entirely inside that prefix.
pub proof fn lemma_offsets_of_prefix(data: Seq<u8>, n: int, o: usize)
    requires
        data.len() <= usize::MAX,
        0 <= n <= data.len(),
    ensures
        block_offsets(data.take(n)).contains(o) <==> (block_offsets(data).contains(o) && o
            + LOCATOR_LEN <= n),
{
    lemma_offset_iff_locator(data.take(n), o);
    lemma_offset_iff_locator(data, o);
    if o + LOCATOR_LEN <= n {
        assert(data.take(n).subrange(o as int, o + LOCATOR_LEN) =~= data.subrange(
            o as int,
            o + LOCATOR_LEN,
        ));
    }
}

/// The offsets of `offs` at or after `k`, in order, each moved back by `k`.
pub open spec fn shift_offsets(offs: Seq<usize>, k: usize) -> Seq<usize>
    decreases offs.len(),
{
    if offs.len() == 0 {
        Seq::empty()
    } else {
        let rest = shift_offsets(offs.drop_last(), k);
        if offs.last() >= k {
            rest.push((offs.last() - k) as usize)
        } else {
            rest
        }
    }
}

proof fn lemma_shift_offsets_none(offs: Seq<usize>, k: usize)
    requires
        forall|i: int| 0 <= i < offs.len() ==> #[trigger] offs[i] < k,
    ensures
        shift_offsets(offs, k) == Seq::<usize>::empty(),
    decreases offs.len(),
{
    if offs.len() > 0 {
        lemma_shift_offsets_none(offs.drop_last(), k);
        assert(offs[offs.len() - 1] < k);
    }
}

/// In a strictly increasing sequence whose first `j` offsets lie before
/// `k` and the rest at or after it, moving back by `k` keeps the rest.
pub proof fn lemma_shift_offsets_sorted(offs: Seq<usize>, k: usize, j: int)
    requires
        0 <= j <= offs.len(),
        forall|i: int| 0 <= i < j ==> #[trigger] offs[i] < k,
        forall|i: int| j <= i < offs.len() ==> #[trigger] offs[i] >= k,
    ensures
        shift_offsets(offs, k) == offs.skip(j).map_values(|o: usize| (o - k) as usize),
    decreases offs.len(),
{
    if offs.len() == j {
        lemma_shift_offsets_none(offs, k);
        assert(offs.skip(j).map_values(|o: usize| (o - k) as usize) =~= Seq::<usize>::empty());
    } else {
        let prev = offs.drop_last();
        assert forall|i: int| j <= i < prev.len() implies #[trigger] prev[i] >= k by {
            assert(prev[i] == offs[i]);
        }
        assert forall|i: int| 0 <= i < j implies #[trigger] prev[i] < k by {
            assert(prev[i] == offs[i]);
        }
        lemma_shift_offsets_sorted(prev, k, j);
        assert(offs[offs.len() - 1] >= k);
        assert(offs.skip(j).map_values(|o: usize| (o - k) as usize) =~= prev.skip(j).map_values(
            |o: usize| (o - k) as usize,
        ).push((offs.last() - k) as usize));
    }
}

/// Dropping the first `k` bytes of a stream leaves exactly the block
/// offsets at or after `k`, in order, each moved back by `k`.
pub proof fn lemma_offsets_after_drop_seq(data: Seq<u8>, k: usize)
    requires
        data.len() <= usize::MAX,
        k <= data.len(),
    ensures
        block_offsets(data.skip(k as int)) == shift_offsets(block_offsets(data), k),
    decreases data.len(),
{
    let offs = block_offsets(data);
    if data.len() == k {
        lemma_offsets_sorted(data);
        assert forall|i: int| 0 <= i < offs.len() implies #[trigger] offs[i] < k by {
            assert(offs[i] + LOCATOR_LEN <= data.len());
        }
        lemma_shift_offsets_none(offs, k);
        assert(data.skip(k as int) =~= Seq::<u8>::empty());
    } else {
        let prev = data.drop_last();
        lemma_offsets_after_drop_seq(prev, k);
        assert(data.skip(k as int).drop_last() =~= prev.skip(k as int));
        if data.len() - k >= LOCATOR_LEN {
            lemma_target_sees_last_window(data);
            lemma_target_sees_last_window(data.skip(k as int));
            assert(data.skip(k as int).skip(data.len() - k - LOCATOR_LEN) =~= data.skip(
                data.len() - LOCATOR_LEN,
            ));
        }
        let po = block_offsets(prev);
        if data.len() >= LOCATOR_LEN && hits_target(data) {
            let x = (data.len() - LOCATOR_LEN) as usize;
            assert(po.push(x).drop_last() =~= po);
            assert(po.push(x).last() == x);
        }
    }
}

/// The offsets found in a prefix of a stream begin the offsets of the
/// whole stream, in the same order.
pub proof fn lemma_offsets_of_prefix_seq(data: Seq<u8>, n: int)
    requires
        0 <= n <= data.len(),
    ensures
        block_offsets(data.take(n)).len() <= block_offsets(data).len(),
        block_offsets(data).take(block_offsets(data.take(n)).len() as int) == block_offsets(
            data.take(n),
        ),
{
    assert(data.take(n) + data.skip(n) =~= data);
    lemma_offsets_extend(data.take(n), data.skip(n));
}

/// Headers found in a stream stay found, in the same places and order, when
/// more bytes follow: the offsets of `a` begin the offsets of `a + b`.
pub proof fn lemma_offsets_extend(a: Seq<u8>, b: Seq<u8>)
    ensures
        block_offsets(a).len() <= block_offsets(a + b).len(),
        block_offsets(a + b).take(block_offsets(a).len() as int) == block_offsets(a),
    decreases b.len(),
{
    if b.len() == 0 {
        assert(a + b =~= a);
        assert(block_offsets(a).take(block_offsets(a).len() as int) =~= block_offsets(a));
    } else {
        assert((a + b).drop_last() =~= a + b.drop_last());
        lemma_offsets_extend(a, b.drop_last());
        let before = block_offsets(a + b.drop_last());
        let n = block_offsets(a).len() as int;
        if (a + b).len() >= LOCATOR_LEN && hits_target(a + b) {
            assert(before.push(((a + b).len() - LOCATOR_LEN) as usize).take(n) =~= before.take(n));
        }
    }
}

/// Whether the hashes hit their targets after a stream of at least sixteen
/// bytes depends only on its last sixteen bytes.
pub proof fn lemma_target_sees_last_window(s: Seq<u8>)
    requires
        s.len() >= LOCATOR_LEN,
    ensures
        hits_target(s) == hits_target(s.skip(s.len() - LOCATOR_LEN)),
{
    reveal(hits_target);
    lemma_hashes_see_last_window(s);
}

proof fn lemma_mix_exec(h: u32, c: u8, m: u32)
    ensures
        vstd::wrapping::u32_specs::wrapping_add(
            vstd::wrapping::u32_specs::wrapping_mul(h, m),
            c as u32,
        ) == mix(h, c, m),
{
    let p = (h as nat * m as nat) % 0x1_0000_0000;
    assert((h * m + c) % 0x1_0000_0000 == (p + c) % 0x1_0000_0000) by (nonlinear_arith)
        requires
            p == (h as nat * m as nat) % 0x1_0000_0000,
    {
        vstd::arithmetic::div_mod::lemma_add_mod_noop(h * m, c as int, 0x1_0000_0000);
        vstd::arithmetic::div_mod::lemma_mod_twice(c as int, 0x1_0000_0000);
    }
    if p + c > u32::MAX {
        assert((p + c) % 0x1_0000_0000 == p + c - 0x1_0000_0000) by (nonlinear_arith)
            requires
                p < 0x1_0000_0000,
                c < 256,
                p + c >= 0x1_0000_0000,
        ;
    } else {
        assert((p + c) % 0x1_0000_0000 == p + c) by (nonlinear_arith)
            requires
                p + c < 0x1_0000_0000,
        ;
    }
}

/// Feeds one byte to a rolling hash.
fn mix_byte(h: u32, c: u8, m: u32) -> (r: u32)
    ensures
        r == mix(h, c, m),
{
    proof {
        lemma_mix_exec(h, c, m);
    }
    h.wrapping_mul(m).wrapping_add(c as u32)
}

/// Returns the offset of every block header in `data`, in increasing order.
///
/// An offset `o` is reported exactly when the sixteen bytes starting at `o`
/// bring all four rolling hashes to their targets.
pub fn find_block_offsets(data: &[u8]) -> (offsets: Vec<usize>)
    ensures
        offsets@ == block_offsets(data@),
{
    let mut offsets: Vec<usize> = Vec::new();
    let mut h1: u32 = SEED_1;
    let mut h2: u32 = SEED_2;
    let mut h3: u32 = SEED_3;
    let mut h4: u32 = SEED_4;
    let mut i: usize = 0;
    while i < data.len()
        invariant
            i <= data.len(),
            (h1, h2, h3, h4) == locator_hashes(data@.take(i as int)),
            offsets@ == block_offsets(data@.take(i as int)),
        decreases data.len() - i,
    {
        proof {
            reveal(hits_target);
        }
        let c = data[i];
        assert(data@.take(i + 1).drop_last() =~= data@.take(i as int));
        h1 = mix_byte(h1, c, MUL_1);
        h2 = mix_byte(h2, c, MUL_2);
        h3 = mix_byte(h3, c, MUL_3);
        h4 = mix_byte(h4, c, MUL_4);
        if h1 == TARGET_1 && h2 == TARGET_2 && h3 == TARGET_3 && h4 == TARGET_4 {
            if i >= 15 {
                offsets.push(i - 15);
            }
        }
        i = i + 1;
    }
    assert(data@.take(data.len() as int) =~= data@);
    offsets
}

} // verus!
