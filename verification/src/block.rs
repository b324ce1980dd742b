//! Blocks and the proof-of-work target that a difficulty stands for.
use vstd::prelude::*;
use vstd::arithmetic::power2::{pow2, lemma2_to64, lemma_pow2_adds, lemma_pow2_pos, lemma_pow2_strictly_increases};
use vstd::arithmetic::div_mod::{lemma_div_by_multiple, lemma_div_is_ordered, lemma_multiply_divide_lt};
use vstd::arithmetic::mul::{lemma_mul_inequality, lemma_mul_strict_inequality};
use vstd::bits::{lemma_u64_shl_is_mul, lemma_u64_shr_is_div};
use vstd::bytes::*;
use crate::transaction::{append_bytes, append_text, transactions_view_of, tx_bytes, utf8, Transaction, TransactionView};
use vstd::string::*;
use crate::zrzhash::meets_target;
use crate::codec::{concat_map, lemma_concat_layout, lemma_lens_sum_grows, lens_sum};

verus! {

/// A block of transactions with its proof of work.
#[derive(Clone, Debug)]
pub struct Block {
    pub index: u64,
    pub timestamp: i64,
    pub transactions: Vec<Transaction>,
    pub previous_hash: String,
    pub hash: String,
    pub nonce: u64,
    pub target: [u8; 32],
}

/// What a block holds, as plain values.
pub struct BlockView {
    pub index: u64,
    pub timestamp: i64,
    pub transactions: Seq<TransactionView>,
    pub previous_hash: Seq<char>,
    pub hash: Seq<char>,
    pub nonce: u64,
    pub target: Seq<u8>,
}

/// The views of a list of transactions.
pub open spec fn transactions_view(txs: Seq<Transaction>) -> Seq<TransactionView> {
    transactions_view_of(txs)
}

impl View for Block {
    type V = BlockView;

    open spec fn view(&self) -> BlockView {
        BlockView {
            index: self.index,
            timestamp: self.timestamp,
            transactions: transactions_view(self.transactions@),
            previous_hash: self.previous_hash@,
            hash: self.hash@,
            nonce: self.nonce,
            target: self.target@,
        }
    }
}

/// The views of a list of blocks.
pub open spec fn blocks_view(blocks: Seq<Block>) -> Seq<BlockView> {
    blocks.map_values(|b: Block| b@)
}

/// The encodings of a list of transactions, one after another.
pub open spec fn transactions_bytes(txs: Seq<TransactionView>) -> Seq<u8>
    decreases txs.len(),
{
    if txs.len() == 0 {
        Seq::empty()
    } else {
        transactions_bytes(txs.drop_last()) + tx_bytes(txs.last())
    }
}

/// The bytes that a block's proof of work hashes: index, timestamp, previous
/// hash and transactions (neither the nonce, the hash nor the target).
pub open spec fn block_bytes(b: BlockView) -> Seq<u8> {
    spec_u64_to_le_bytes(b.index) + spec_u64_to_le_bytes(b.timestamp as u64) + utf8(b.previous_hash)
        + transactions_bytes(b.transactions)
}

/// The value of `f.floor() as u64` for the binary64 number `f` with the given
/// bit pattern: negative numbers, NaN and numbers below one give 0, numbers
/// from 2^64 up (and +infinity) give `u64::MAX`.
pub open spec fn float_floor_u64(bits: u64) -> nat {
    let negative = (bits >> 63) == 1;
    let exponent = ((bits >> 52) & 0x7ff) as nat;
    let significand = (bits & 0xf_ffff_ffff_ffff) as nat + pow2(52);
    if exponent == 0x7ff {
        if (bits & 0xf_ffff_ffff_ffff) == 0 && !negative {
            u64::MAX as nat
        } else {
            0
        }
    } else if negative || exponent < 1023 {
        0
    } else if exponent >= 1087 {
        u64::MAX as nat
    } else if exponent >= 1075 {
        significand * pow2((exponent - 1075) as nat)
    } else {
        significand / pow2((1075 - exponent) as nat)
    }
}

/// The target of a difficulty level: `level / 8` zero bytes, then the byte
/// `0xff >> (level % 8)`, then `0xff` bytes, 32 bytes in all.
pub open spec fn target_for_level(level: nat) -> Seq<u8> {
    Seq::new(
        32,
        |i: int|
            if i < level / 8 {
                0u8
            } else if i == level / 8 {
                0xffu8 >> ((level % 8) as u8)
            } else {
                0xffu8
            },
    )
}

/// The target of a difficulty given as binary64 bits: the target of its floor.
pub open spec fn difficulty_target(difficulty_bits: u64) -> Seq<u8> {
    target_for_level(float_floor_u64(difficulty_bits))
}

/// A harder difficulty never has a larger target byte: when the floor of
/// `harder` is at least that of `easier`, each byte of its target is at most
/// the byte of the easier target, so a hash that meets the harder target meets
/// the easier one too.
pub proof fn lemma_target_monotone(harder: u64, easier: u64)
    requires
        float_floor_u64(harder) >= float_floor_u64(easier),
    ensures
        forall|i: int| 0 <= i < 32 ==> #[trigger] difficulty_target(harder)[i] <= difficulty_target(easier)[i],
        forall|h: Seq<u8>| meets_target(h, difficulty_target(harder)) ==> #[trigger] meets_target(h, difficulty_target(easier)),
{
    let la = float_floor_u64(harder);
    let lb = float_floor_u64(easier);
    assert forall|i: int| 0 <= i < 32 implies #[trigger] difficulty_target(harder)[i] <= difficulty_target(easier)[i] by {
        if i == lb / 8 && i == la / 8 {
            let sa = (la % 8) as u8;
            let sb = (lb % 8) as u8;
            assert(sa >= sb);
            assert((0xffu8 >> sa) <= (0xffu8 >> sb)) by (bit_vector)
                requires
                    sa >= sb,
                    sa < 8,
            ;
        }
    }
}

/// Whether the bits are those of a binary64 NaN.
pub open spec fn is_nan_bits(bits: u64) -> bool {
    ((bits >> 52) & 0x7ff) == 0x7ff && (bits & 0xf_ffff_ffff_ffff) != 0
}

/// The order `a <= b` of two binary64 numbers that are not NaN, given by
/// their bits: among non-negative numbers the bits order as the numbers do,
/// among negative ones the other way round, every negative number is below
/// every non-negative one, and the two zeros are equal.
pub open spec fn binary64_le(a: u64, b: u64) -> bool {
    let a_negative = (a >> 63) == 1;
    let b_negative = (b >> 63) == 1;
    let a_magnitude = a & 0x7fff_ffff_ffff_ffff;
    let b_magnitude = b & 0x7fff_ffff_ffff_ffff;
    if !a_negative && !b_negative {
        a <= b
    } else if a_negative && b_negative {
        a_magnitude >= b_magnitude
    } else if a_negative {
        true
    } else {
        a_magnitude == 0 && b_magnitude == 0
    }
}

proof fn lemma_significand_range(bits: u64)
    ensures
        pow2(52) <= (bits & 0xf_ffff_ffff_ffff) as nat + pow2(52) < pow2(53),
        pow2(53) == 2 * pow2(52),
{
    assert((bits & 0xf_ffff_ffff_ffff) < 0x10_0000_0000_0000u64) by (bit_vector);
    lemma2_to64();
    vstd::arithmetic::power2::lemma2_to64_rest();
}

/// A number with exponent field `e` in `1023..1087` has a floor from
/// `2^(e-1023)` up to below `2^(e-1022)`.
proof fn lemma_floor_bounds(bits: u64)
    requires
        (bits >> 63) != 1,
        1023 <= ((bits >> 52) & 0x7ff) < 1087,
    ensures
        pow2((((bits >> 52) & 0x7ff) - 1023) as nat) <= float_floor_u64(bits),
        float_floor_u64(bits) < pow2((((bits >> 52) & 0x7ff) - 1022) as nat),
{
    let e = ((bits >> 52) & 0x7ff) as nat;
    let sig = (bits & 0xf_ffff_ffff_ffff) as nat + pow2(52);
    lemma_significand_range(bits);
    if e >= 1075 {
        let s = (e - 1075) as nat;
        lemma_pow2_pos(s);
        lemma_mul_inequality(pow2(52) as int, sig as int, pow2(s) as int);
        lemma_mul_strict_inequality(sig as int, pow2(53) as int, pow2(s) as int);
        lemma_pow2_adds(52, s);
        lemma_pow2_adds(53, s);
        assert((52 + s) as nat == (e - 1023) as nat);
        assert((53 + s) as nat == (e - 1022) as nat);
    } else {
        let k = (1075 - e) as nat;
        lemma_pow2_pos(k);
        lemma_pow2_adds((52 - k) as nat, k);
        lemma_pow2_adds(k, (53 - k) as nat);
        assert(((52 - k) as nat + k) as nat == 52);
        assert((k + (53 - k) as nat) as nat == 53);
        lemma_div_is_ordered(pow2(52) as int, sig as int, pow2(k) as int);
        lemma_div_by_multiple(pow2((52 - k) as nat) as int, pow2(k) as int);
        lemma_multiply_divide_lt(sig as int, pow2(k) as int, pow2((53 - k) as nat) as int);
        assert((52 - k) as nat == (e - 1023) as nat);
        assert((53 - k) as nat == (e - 1022) as nat);
    }
}

/// Two numbers with the same exponent field in `1023..1087`: the larger
/// fraction has the larger or equal floor.
proof fn lemma_floor_same_exponent(a: u64, b: u64)
    requires
        (a >> 63) != 1,
        (b >> 63) != 1,
        ((a >> 52) & 0x7ff) == ((b >> 52) & 0x7ff),
        1023 <= ((a >> 52) & 0x7ff) < 1087,
        (a & 0xf_ffff_ffff_ffff) <= (b & 0xf_ffff_ffff_ffff),
    ensures
        float_floor_u64(a) <= float_floor_u64(b),
{
    let e = ((a >> 52) & 0x7ff) as nat;
    let sa = (a & 0xf_ffff_ffff_ffff) as nat + pow2(52);
    let sb = (b & 0xf_ffff_ffff_ffff) as nat + pow2(52);
    if e >= 1075 {
        let s = (e - 1075) as nat;
        lemma_pow2_pos(s);
        lemma_mul_inequality(sa as int, sb as int, pow2(s) as int);
    } else {
        let k = (1075 - e) as nat;
        lemma_pow2_pos(k);
        lemma_div_is_ordered(sa as int, sb as int, pow2(k) as int);
    }
}

/// The floor never decreases as a binary64 number grows: for numbers that
/// are not NaN, `a <= b` gives `floor(a) <= floor(b)` (floors taken as
/// `float_floor_u64` does).
pub proof fn lemma_floor_monotone(a: u64, b: u64)
    requires
        !is_nan_bits(a),
        !is_nan_bits(b),
        binary64_le(a, b),
    ensures
        float_floor_u64(a) <= float_floor_u64(b),
{
    let ea = (a >> 52) & 0x7ff;
    let eb = (b >> 52) & 0x7ff;
    assert((a >> 63) == 0 || (a >> 63) == 1) by (bit_vector);
    assert((b >> 63) == 0 || (b >> 63) == 1) by (bit_vector);
    if (a >> 63) == 1 {
    } else if (b >> 63) == 1 {
        assert((a & 0x7fff_ffff_ffff_ffff) == 0 && (a >> 63) == 0 ==> (a >> 52) & 0x7ff == 0) by (bit_vector);
    } else {
        assert((a >> 63) == 0 && (b >> 63) == 0 && a <= b ==> (a >> 52) & 0x7ff <= (b >> 52) & 0x7ff) by (bit_vector);
        assert((a >> 63) == 0 && (b >> 63) == 0 && a <= b && (a >> 52) & 0x7ff == (b >> 52) & 0x7ff
            ==> (a & 0xf_ffff_ffff_ffff) <= (b & 0xf_ffff_ffff_ffff)) by (bit_vector);
        assert(ea <= eb);
        if eb == 0x7ff {
            assert((b & 0xf_ffff_ffff_ffff) == 0);
        }
        if ea == 0x7ff {
            assert((a & 0xf_ffff_ffff_ffff) == 0);
        }
        if 1023 <= ea < 1087 {
            lemma_floor_bounds(a);
            let la = (ea - 1022) as nat;
            lemma2_to64();
            vstd::arithmetic::power2::lemma2_to64_rest();
            if la < 64 {
                lemma_pow2_strictly_increases(la, 64);
            }
            assert(float_floor_u64(a) < pow2(64));
            if eb < 1087 {
                if ea == eb {
                    lemma_floor_same_exponent(a, b);
                } else {
                    lemma_floor_bounds(b);
                    let lb = (eb - 1023) as nat;
                    if la < lb {
                        lemma_pow2_strictly_increases(la, lb);
                    }
                }
            }
        }
    }
}

/// A higher difficulty never loosens the target: for difficulties that are
/// not NaN with `easier <= harder`, each byte of the harder target is at most
/// the byte of the easier one, so a hash that meets the harder target meets
/// the easier one too.
pub proof fn lemma_target_monotone_in_difficulty(easier: u64, harder: u64)
    requires
        !is_nan_bits(easier),
        !is_nan_bits(harder),
        binary64_le(easier, harder),
    ensures
        forall|i: int| 0 <= i < 32 ==> #[trigger] difficulty_target(harder)[i] <= difficulty_target(easier)[i],
        forall|h: Seq<u8>| meets_target(h, difficulty_target(harder)) ==> #[trigger] meets_target(h, difficulty_target(easier)),
{
    lemma_floor_monotone(easier, harder);
    lemma_target_monotone(harder, easier);
}

/// `tx_bytes` as a function value.
pub open spec fn tx_bytes_fn() -> spec_fn(TransactionView) -> Seq<u8> {
    |tx: TransactionView| tx_bytes(tx)
}

proof fn lemma_transactions_bytes_concat(txs: Seq<TransactionView>)
    ensures
        transactions_bytes(txs) == concat_map(txs, tx_bytes_fn()),
    decreases txs.len(),
{
    if txs.len() > 0 {
        lemma_transactions_bytes_concat(txs.drop_last());
    }
}

/// The bytes that a block's proof of work covers are laid out field by
/// field: the index and the timestamp (eight bytes each, little-endian), the
/// previous hash text, then the full encoding of each transaction, once and
/// in order; nothing else.
pub proof fn lemma_block_bytes_layout(b: BlockView)
    ensures
        block_bytes(b).subrange(0, 8) == spec_u64_to_le_bytes(b.index),
        block_bytes(b).subrange(8, 16) == spec_u64_to_le_bytes(b.timestamp as u64),
        block_bytes(b).subrange(16, 16 + utf8(b.previous_hash).len() as int) == utf8(b.previous_hash),
        block_bytes(b).len() == 16 + utf8(b.previous_hash).len()
            + lens_sum(b.transactions, tx_bytes_fn(), b.transactions.len() as int),
        forall|k: int| 0 <= k < b.transactions.len() ==> block_bytes(b).subrange(
            16 + utf8(b.previous_hash).len() + lens_sum(b.transactions, tx_bytes_fn(), k),
            16 + utf8(b.previous_hash).len() + lens_sum(b.transactions, tx_bytes_fn(), k + 1),
        ) == tx_bytes(#[trigger] b.transactions[k]),
{
    lemma_auto_spec_u64_to_from_le_bytes();
    lemma_transactions_bytes_concat(b.transactions);
    lemma_concat_layout(b.transactions, tx_bytes_fn());
    let i8 = spec_u64_to_le_bytes(b.index);
    let t8 = spec_u64_to_le_bytes(b.timestamp as u64);
    let ph = utf8(b.previous_hash);
    let body = concat_map(b.transactions, tx_bytes_fn());
    let bb = block_bytes(b);
    assert(bb =~= i8 + t8 + ph + body);
    assert(bb.subrange(0, 8) =~= i8);
    assert(bb.subrange(8, 16) =~= t8);
    assert(bb.subrange(16, 16 + ph.len() as int) =~= ph);
    let a = 16 + ph.len();
    assert forall|k: int| 0 <= k < b.transactions.len() implies bb.subrange(
        16 + utf8(b.previous_hash).len() + lens_sum(b.transactions, tx_bytes_fn(), k),
        16 + utf8(b.previous_hash).len() + lens_sum(b.transactions, tx_bytes_fn(), k + 1),
    ) == tx_bytes(#[trigger] b.transactions[k]) by {
        let lo = lens_sum(b.transactions, tx_bytes_fn(), k);
        let hi = lens_sum(b.transactions, tx_bytes_fn(), k + 1);
        assert(body.subrange(lo, hi) == tx_bytes(b.transactions[k]));
        lemma_lens_sum_grows(b.transactions, tx_bytes_fn(), k + 1, b.transactions.len() as int);
        lemma_lens_sum_grows(b.transactions, tx_bytes_fn(), 0, k);
        lemma_lens_sum_grows(b.transactions, tx_bytes_fn(), k, k + 1);
        assert(bb.subrange(a + lo, a + hi) =~= body.subrange(lo, hi));
    }
}

/// The number that a sequence of bytes spells in big-endian order.
pub open spec fn be_value(s: Seq<u8>) -> nat
    decreases s.len(),
{
    if s.len() == 0 {
        0
    } else {
        be_value(s.drop_last()) * 256 + s.last() as nat
    }
}

/// 256 to the power `k`.
pub open spec fn pow256(k: nat) -> nat
    decreases k,
{
    if k == 0 {
        1
    } else {
        256 * pow256((k - 1) as nat)
    }
}

proof fn lemma_be_split(s: Seq<u8>, j: int)
    requires
        0 <= j <= s.len(),
    ensures
        be_value(s) == be_value(s.subrange(0, j)) * pow256((s.len() - j) as nat) + be_value(s.subrange(j, s.len() as int)),
    decreases s.len(),
{
    let n = s.len() as int;
    if j == n {
        assert(s.subrange(0, j) =~= s);
        assert(s.subrange(j, n).len() == 0);
        assert(be_value(s.subrange(j, n)) == 0);
        assert(pow256(0) == 1);
        assert(be_value(s.subrange(0, j)) * 1 == be_value(s.subrange(0, j))) by (nonlinear_arith);
    } else {
        let d = s.drop_last();
        lemma_be_split(d, j);
        assert(d.subrange(0, j) =~= s.subrange(0, j));
        assert(s.subrange(j, n).drop_last() =~= d.subrange(j, n - 1));
        assert(s.subrange(j, n).last() == s.last());
        let a = be_value(s.subrange(0, j));
        let p = pow256((n - 1 - j) as nat);
        let bq = be_value(d.subrange(j, n - 1));
        assert(pow256((n - j) as nat) == 256 * p);
        assert(be_value(s) == be_value(d) * 256 + s.last() as nat);
        assert(be_value(s.subrange(j, n)) == be_value(s.subrange(j, n).drop_last()) * 256 + s.subrange(j, n).last() as nat);
        assert((a * p + bq) * 256 + s.last() as nat == a * (256 * p) + (bq * 256 + s.last() as nat)) by (nonlinear_arith);
    }
}

proof fn lemma_be_bound(s: Seq<u8>)
    ensures
        be_value(s) < pow256(s.len()),
    decreases s.len(),
{
    if s.len() > 0 {
        lemma_be_bound(s.drop_last());
        let v = be_value(s.drop_last());
        let p = pow256((s.len() - 1) as nat);
        let l = s.last() as nat;
        assert(v * 256 + l < 256 * p) by (nonlinear_arith)
            requires
                v < p,
                l < 256,
        ;
    }
}

proof fn lemma_be_zero(s: Seq<u8>)
    ensures
        be_value(s) == 0 <==> forall|i: int| 0 <= i < s.len() ==> #[trigger] s[i] == 0,
    decreases s.len(),
{
    if s.len() > 0 {
        let d = s.drop_last();
        lemma_be_zero(d);
        if be_value(s) == 0 {
            assert(be_value(d) == 0 && s.last() == 0) by (nonlinear_arith)
                requires
                    be_value(d) * 256 + s.last() as nat == 0,
            ;
            assert forall|i: int| 0 <= i < s.len() implies #[trigger] s[i] == 0 by {
                if i < d.len() {
                    assert(d[i] == s[i]);
                }
            }
        }
        if forall|i: int| 0 <= i < s.len() ==> #[trigger] s[i] == 0 {
            assert forall|i: int| 0 <= i < d.len() implies #[trigger] d[i] == 0 by {
                assert(s[i] == 0);
            }
            assert(s[s.len() - 1] == 0);
        }
    }
}

proof fn lemma_be_all_ones(s: Seq<u8>)
    requires
        forall|i: int| 0 <= i < s.len() ==> #[trigger] s[i] == 0xff,
    ensures
        be_value(s) + 1 == pow256(s.len()),
    decreases s.len(),
{
    if s.len() > 0 {
        let d = s.drop_last();
        assert forall|i: int| 0 <= i < d.len() implies #[trigger] d[i] == 0xff by {
            assert(s[i] == 0xff);
        }
        lemma_be_all_ones(d);
        assert(s[s.len() - 1] == 0xff);
    }
}

proof fn lemma_level_test_is_numeric(h: Seq<u8>, level: nat)
    requires
        h.len() == 32,
    ensures
        meets_target(h, target_for_level(level)) <==> be_value(h) <= be_value(target_for_level(level)),
{
    let t = target_for_level(level);
    let z = level / 8;
    if z >= 32 {
        assert forall|i: int| 0 <= i < t.len() implies #[trigger] t[i] == 0 by {}
        lemma_be_zero(t);
        lemma_be_zero(h);
        if meets_target(h, t) {
            assert forall|i: int| 0 <= i < h.len() implies #[trigger] h[i] == 0 by {
                assert(h[i] <= t[i]);
            }
        }
        if be_value(h) <= be_value(t) {
            assert forall|i: int| 0 <= i < 32 implies #[trigger] h[i] <= t[i] by {
                assert(h[i] == 0);
            }
        }
    } else {
        let zi = z as int;
        let k = (31 - zi) as nat;
        let v = t[zi];
        let p = pow256(k);
        // h = hp ++ [h[z]] ++ hq, and likewise t
        lemma_be_split(h, zi);
        lemma_be_split(h.subrange(zi, 32), 1);
        lemma_be_split(t, zi);
        lemma_be_split(t.subrange(zi, 32), 1);
        let hp = h.subrange(0, zi);
        let hq = h.subrange(zi + 1, 32);
        let tp = t.subrange(0, zi);
        let tq = t.subrange(zi + 1, 32);
        assert(h.subrange(zi, 32).subrange(1, h.subrange(zi, 32).len() as int) =~= hq);
        assert(t.subrange(zi, 32).subrange(1, t.subrange(zi, 32).len() as int) =~= tq);
        let h1 = h.subrange(zi, 32).subrange(0, 1);
        let t1 = t.subrange(zi, 32).subrange(0, 1);
        assert(h1.drop_last().len() == 0 && h1.last() == h[zi]);
        assert(t1.drop_last().len() == 0 && t1.last() == v);
        assert(be_value(h1.drop_last()) == 0);
        assert(be_value(t1.drop_last()) == 0);
        assert(be_value(h1) == h[zi] as nat);
        assert(be_value(t1) == v as nat);
        assert(pow256((32 - zi) as nat) == 256 * p);
        assert forall|i: int| 0 <= i < tp.len() implies #[trigger] tp[i] == 0 by {
            assert(tp[i] == t[i]);
        }
        lemma_be_zero(tp);
        assert forall|i: int| 0 <= i < tq.len() implies #[trigger] tq[i] == 0xff by {
            assert(tq[i] == t[zi + 1 + i]);
        }
        lemma_be_all_ones(tq);
        lemma_be_bound(hq);
        lemma_be_zero(hp);
        let bp = be_value(hp);
        let bq = be_value(hq);
        let hz = h[zi] as nat;
        let vv = v as nat;
        assert(be_value(h) == bp * (256 * p) + (hz * p + bq));
        assert(be_value(t) == vv * p + (p - 1));
        assert(p > 0) by {
            assert(bq < p);
        }
        if meets_target(h, t) {
            assert forall|i: int| 0 <= i < hp.len() implies #[trigger] hp[i] == 0 by {
                assert(hp[i] == h[i]);
                assert(h[i] <= t[i]);
            }
            assert(h[zi] <= t[zi]);
            assert(hz * p + bq <= vv * p + (p - 1)) by (nonlinear_arith)
                requires
                    hz <= vv,
                    bq < p,
            ;
        }
        if be_value(h) <= be_value(t) {
            assert(bp == 0 && hz <= vv) by (nonlinear_arith)
                requires
                    bp * (256 * p) + (hz * p + bq) <= vv * p + (p - 1),
                    vv <= 255,
                    p > 0,
            ;
            assert forall|i: int| 0 <= i < 32 implies #[trigger] h[i] <= t[i] by {
                if i < zi {
                    assert(hp[i] == h[i]);
                    assert(hp[i] == 0);
                } else if i > zi {
                    assert(t[i] == 0xff);
                }
            }
        }
    }
}

/// For the targets of difficulties (those `calculate_target` makes), the
/// byte-by-byte test of the proof of work is the numeric one: a 32-byte hash
/// meets the target exactly when, read as a 256-bit big-endian number, it is
/// at most the target read the same way.
pub proof fn lemma_target_test_is_numeric(hash: Seq<u8>, difficulty_bits: u64)
    requires
        hash.len() == 32,
    ensures
        meets_target(hash, difficulty_target(difficulty_bits)) <==> be_value(hash) <= be_value(
            difficulty_target(difficulty_bits),
        ),
{
    lemma_level_test_is_numeric(hash, float_floor_u64(difficulty_bits));
}

/// Computes `f.floor() as u64` for the binary64 number with bits `bits`.
pub fn float_floor(bits: u64) -> (floor: u64)
    ensures
        floor as nat == float_floor_u64(bits),
{
    let negative = (bits >> 63) == 1;
    let exponent = (bits >> 52) & 0x7ff;
    let fraction = bits & 0xf_ffff_ffff_ffff;
    if exponent == 0x7ff {
        if fraction == 0 && !negative {
            u64::MAX
        } else {
            0
        }
    } else if negative || exponent < 1023 {
        0
    } else if exponent >= 1087 {
        u64::MAX
    } else {
        let significand = fraction | (1u64 << 52);
        proof {
            assert(fraction < 0x10_0000_0000_0000u64) by (bit_vector)
                requires
                    fraction == bits & 0xf_ffff_ffff_ffff,
            ;
            assert(significand == fraction + 0x10_0000_0000_0000u64) by (bit_vector)
                requires
                    fraction < 0x10_0000_0000_0000u64,
                    significand == fraction | (1u64 << 52),
            ;
            lemma2_to64();
            vstd::arithmetic::power2::lemma2_to64_rest();
            assert(pow2(52) == 0x10_0000_0000_0000);
        }
        if exponent >= 1075 {
            let shift = exponent - 1075;
            proof {
                assert(shift <= 11);
                lemma_pow2_adds(shift as nat, 53);
                if shift < 11 {
                    lemma_pow2_strictly_increases((shift + 53) as nat, 64);
                }
                assert(pow2(53) == 0x20_0000_0000_0000);
                assert(pow2(64) == 0x1_0000_0000_0000_0000) by {
                    lemma_pow2_adds(32, 32);
                }
                vstd::arithmetic::power2::lemma_pow2_pos(shift as nat);
                assert(significand * pow2(shift as nat) < pow2(53) * pow2(shift as nat)) by (nonlinear_arith)
                    requires
                        significand < pow2(53),
                        pow2(shift as nat) > 0,
                ;
                assert(pow2(53) * pow2(shift as nat) == pow2((shift + 53) as nat));
                assert(pow2((shift + 53) as nat) <= pow2(64));
                assert(significand * pow2(shift as nat) <= u64::MAX);
                lemma_u64_shl_is_mul(significand, shift);
            }
            significand << shift
        } else {
            let shift = 1075 - exponent;
            proof {
                lemma_u64_shr_is_div(significand, shift);
            }
            significand >> shift
        }
    }
}

impl Block {
    /// A block with the given contents, no nonce or hash yet, and the target
    /// of `difficulty_bits`.
    pub fn new(
        index: u64,
        timestamp: i64,
        previous_hash: String,
        transactions: Vec<Transaction>,
        difficulty_bits: u64,
    ) -> (block: Self)
        ensures
            block.index == index,
            block.timestamp == timestamp,
            block.previous_hash@ == previous_hash@,
            block.transactions@ == transactions@,
            block.hash@ == Seq::<char>::empty(),
            block.nonce == 0,
            block.target@ == difficulty_target(difficulty_bits),
    {
        Block {
            index,
            timestamp,
            transactions,
            previous_hash,
            hash: String::new(),
            nonce: 0,
            target: Self::calculate_target(difficulty_bits),
        }
    }

    /// The proof-of-work target of a difficulty given as binary64 bits: one
    /// leading zero bit per whole unit of difficulty.
    pub fn calculate_target(difficulty_bits: u64) -> (target: [u8; 32])
        ensures
            target@ == difficulty_target(difficulty_bits),
    {
        let level = float_floor(difficulty_bits);
        let leading_zeros = level / 8;
        let remainder = level % 8;
        let mut target = [0xffu8; 32];
        let zeros: usize = if leading_zeros < 32 {
            leading_zeros as usize
        } else {
            32
        };
        for i in 0..zeros
            invariant
                zeros <= 32,
                zeros as nat == (if leading_zeros < 32 { leading_zeros as nat } else { 32 }),
                forall|k: int| 0 <= k < i ==> target@[k] == 0u8,
                forall|k: int| i <= k < 32 ==> target@[k] == 0xffu8,
        {
            target[i] = 0;
        }
        if leading_zeros < 32 {
            target[leading_zeros as usize] = 0xffu8 >> (remainder as u8);
        }
        assert(target@ =~= target_for_level(level as nat));
        target
    }

    /// The bytes hashed by the proof of work.
    pub fn to_bytes(&self) -> (bytes: Vec<u8>)
        ensures
            bytes@ == block_bytes(self@),
    {
        let mut bytes: Vec<u8> = Vec::new();
        let index_bytes = u64_to_le_bytes(self.index);
        append_bytes(&mut bytes, index_bytes.as_slice());
        let time_bytes = u64_to_le_bytes(self.timestamp as u64);
        append_bytes(&mut bytes, time_bytes.as_slice());
        append_text(&mut bytes, &self.previous_hash);
        let ghost head = bytes@;
        for i in 0..self.transactions.len()
            invariant
                bytes@ == head + transactions_bytes(transactions_view(self.transactions@).subrange(0, i as int)),
        {
            let tx_bytes = self.transactions[i].to_bytes();
            append_bytes(&mut bytes, tx_bytes.as_slice());
            assert(transactions_view(self.transactions@).subrange(0, i + 1).drop_last()
                =~= transactions_view(self.transactions@).subrange(0, i as int));
        }
        assert(transactions_view(self.transactions@).subrange(0, self.transactions@.len() as int)
            =~= transactions_view(self.transactions@));
        bytes
    }

    /// A copy of the block.
    pub fn duplicate(&self) -> (copy: Self)
        ensures
            copy@ == self@,
    {
        Block {
            index: self.index,
            timestamp: self.timestamp,
            transactions: duplicate_transactions(&self.transactions),
            previous_hash: self.previous_hash.clone(),
            hash: self.hash.clone(),
            nonce: self.nonce,
            target: self.target,
        }
    }
}

/// A copy of a list of transactions.
pub fn duplicate_transactions(txs: &Vec<Transaction>) -> (copy: Vec<Transaction>)
    ensures
        transactions_view(copy@) == transactions_view(txs@),
{
    let mut copy: Vec<Transaction> = Vec::new();
    for i in 0..txs.len()
        invariant
            copy@.len() == i,
            transactions_view(copy@) == transactions_view(txs@).subrange(0, i as int),
    {
        let ghost prev = copy@;
        let item = txs[i].duplicate();
        copy.push(item);
        assert forall|k: int| 0 <= k < i + 1 implies #[trigger] transactions_view(copy@)[k] == transactions_view(txs@)[k] by {
            if k < i {
                assert(copy@[k] == prev[k]);
                assert(transactions_view(prev)[k] == transactions_view(txs@).subrange(0, i as int)[k]);
            }
        }
        assert(transactions_view(copy@) =~= transactions_view(txs@).subrange(0, i + 1));
    }
    assert(transactions_view(txs@).subrange(0, txs@.len() as int) =~= transactions_view(txs@));
    copy
}

/// A copy of a list of blocks.
pub fn duplicate_blocks(blocks: &Vec<Block>) -> (copy: Vec<Block>)
    ensures
        blocks_view(copy@) == blocks_view(blocks@),
{
    let mut copy: Vec<Block> = Vec::new();
    for i in 0..blocks.len()
        invariant
            copy@.len() == i,
            blocks_view(copy@) == blocks_view(blocks@).subrange(0, i as int),
    {
        let ghost prev = copy@;
        let item = blocks[i].duplicate();
        copy.push(item);
        assert forall|k: int| 0 <= k < i + 1 implies #[trigger] blocks_view(copy@)[k] == blocks_view(blocks@)[k] by {
            if k < i {
                assert(copy@[k] == prev[k]);
                assert(blocks_view(prev)[k] == blocks_view(blocks@).subrange(0, i as int)[k]);
            }
        }
        assert(blocks_view(copy@) =~= blocks_view(blocks@).subrange(0, i + 1));
    }
    assert(blocks_view(blocks@).subrange(0, blocks@.len() as int) =~= blocks_view(blocks@));
    copy
}

} // verus!
