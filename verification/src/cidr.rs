//! Normalization of registry resource strings into canonical CIDR blocks.
//!
//! A raw entry is either an exact CIDR string (passed through unchanged) or
//! an inclusive `start-end` IPv4 range, which is expanded into the greedy
//! minimal sequence of aligned power-of-two blocks that tiles the range.
use vstd::prelude::*;
use vstd::arithmetic::power2::{
    pow2, lemma_pow2_pos, lemma_pow2_adds, lemma_pow2_strictly_increases, lemma2_to64,
};
use vstd::arithmetic::div_mod::lemma_fundamental_div_mod;
use vstd::string::StrSliceExecFns;
use vstd::string::StringExecFns;
use crate::text::{
    find_char, split_char, split_str, contains_char, dec_rep, dec_value, all_digits, is_digit,
    digit_val, push_dec_u8, lemma_dec_value_min,
};
use crate::CidrBlock;
use crate::SyncError;

verus! {

/// The number of trailing zero bits of `c`, scanned upward from bit `t`
/// (32 when `c` is zero, as for the whole 32-bit address space).
pub open spec fn spec_tz_from(c: nat, t: nat) -> nat
    decreases 32 - t,
    when t <= 32
{
    if t >= 32 {
        32
    } else if c % pow2((t + 1) as nat) == 0 {
        spec_tz_from(c, (t + 1) as nat)
    } else {
        t
    }
}

pub open spec fn spec_tz(c: nat) -> nat {
    spec_tz_from(c, 0)
}

/// The position of the highest set bit of `r`, scanned upward from `h`,
/// capped at 32.
pub open spec fn spec_hb_from(r: nat, h: nat) -> nat
    decreases 32 - h,
    when h <= 32
{
    if h >= 32 {
        32
    } else if pow2((h + 1) as nat) <= r {
        spec_hb_from(r, (h + 1) as nat)
    } else {
        h
    }
}

pub open spec fn spec_hb(r: nat) -> nat {
    spec_hb_from(r, 0)
}

pub proof fn lemma_spec_hb_from(r: nat, h: nat)
    requires
        h <= 32,
        pow2(h) <= r,
    ensures
        h <= spec_hb_from(r, h) <= 32,
        pow2(spec_hb_from(r, h)) <= r,
        spec_hb_from(r, h) < 32 ==> r < pow2((spec_hb_from(r, h) + 1) as nat),
    decreases 32 - h,
{
    if h >= 32 {
    } else if pow2((h + 1) as nat) <= r {
        lemma_spec_hb_from(r, (h + 1) as nat);
    }
}

pub proof fn lemma_spec_hb(r: nat)
    requires
        1 <= r <= 0x1_0000_0000,
    ensures
        spec_hb(r) <= 32,
        pow2(spec_hb(r)) <= r,
        r < pow2((spec_hb(r) + 1) as nat),
{
    lemma2_to64();
    lemma_spec_hb_from(r, 0);
    if spec_hb(r) == 32 {
        lemma_pow2_strictly_increases(32, 33);
        assert(pow2(33) > pow2(32));
    }
}

pub proof fn lemma_spec_tz_from(c: nat, t: nat)
    requires
        t <= 32,
        c % pow2(t) == 0,
    ensures
        t <= spec_tz_from(c, t) <= 32,
        c % pow2(spec_tz_from(c, t)) == 0,
        spec_tz_from(c, t) < 32 ==> c % pow2((spec_tz_from(c, t) + 1) as nat) != 0,
    decreases 32 - t,
{
    if t >= 32 {
    } else if c % pow2((t + 1) as nat) == 0 {
        lemma_spec_tz_from(c, (t + 1) as nat);
    }
}

pub proof fn lemma_spec_tz(c: nat)
    ensures
        spec_tz(c) <= 32,
        c % pow2(spec_tz(c)) == 0,
        spec_tz(c) < 32 ==> c % pow2((spec_tz(c) + 1) as nat) != 0,
{
    lemma2_to64();
    assert(c % pow2(0) == 0);
    lemma_spec_tz_from(c, 0);
}

/// Divisibility by a power of two carries down to smaller exponents.
pub proof fn lemma_pow2_mod_lower(c: nat, a: nat, b: nat)
    requires
        a <= b,
        c % pow2(b) == 0,
    ensures
        c % pow2(a) == 0,
{
    let pa = pow2(a) as int;
    let pd = pow2((b - a) as nat) as int;
    let pb = pow2(b) as int;
    lemma_pow2_adds(a, (b - a) as nat);
    lemma_pow2_pos(a);
    lemma_pow2_pos(b);
    lemma_fundamental_div_mod(c as int, pb);
    let q = c as int / pb;
    assert(c as int == pb * q);
    assert(pb * q == (q * pd) * pa) by (nonlinear_arith)
        requires
            pb == pa * pd,
    ;
    vstd::arithmetic::div_mod::lemma_mod_multiples_basic(q * pd, pa);
}

/// The exponent of the greedy block at `c` for a range ending at `e`:
/// the smaller of the alignment bound and the remaining-size bound.
pub open spec fn spec_low(c: nat, e: nat) -> nat {
    let t = spec_tz(c);
    let h = spec_hb((e - c + 1) as nat);
    if t < h {
        t
    } else {
        h
    }
}

/// The greedy block emitted at cursor `c` for a range ending at `e`.
pub open spec fn spec_block(c: nat, e: nat) -> CidrBlock {
    CidrBlock { addr: c as u32, prefix: (32 - spec_low(c, e)) as u8 }
}

/// The greedy block at `c` is well formed, fits in the remaining range,
/// and is nonempty.
pub proof fn lemma_range_step(c: nat, e: nat)
    requires
        c <= e < 0x1_0000_0000,
    ensures
        spec_low(c, e) <= 32,
        1 <= pow2(spec_low(c, e)),
        pow2(spec_low(c, e)) <= e + 1 - c,
        c % pow2(spec_low(c, e)) == 0,
{
    let r = (e - c + 1) as nat;
    lemma_spec_hb(r);
    lemma_spec_tz(c);
    let low = spec_low(c, e);
    lemma_pow2_pos(low);
    if low < spec_hb(r) {
        lemma_pow2_strictly_increases(low, spec_hb(r));
    }
    lemma_pow2_mod_lower(c, low, spec_tz(c));
}

/// The ordered sequence of greedy aligned blocks tiling `[c, e]`;
/// empty when the range is empty or out of the 32-bit space.
pub open spec fn range_blocks(c: int, e: int) -> Seq<CidrBlock>
    decreases e + 1 - c,
{
    if !(0 <= c <= e < 0x1_0000_0000) {
        Seq::empty()
    } else {
        proof {
            lemma_range_step(c as nat, e as nat);
        }
        seq![spec_block(c as nat, e as nat)] + range_blocks(
            c + pow2(spec_low(c as nat, e as nat)) as int,
            e,
        )
    }
}

/// Whether some block of `bs` spans the address `a`.
pub open spec fn covered_by(bs: Seq<CidrBlock>, a: int) -> bool {
    exists|i: int|
        0 <= i < bs.len() && bs[i].addr <= a < bs[i].addr + (#[trigger] bs[i]).block_size()
}

/// The blocks expanded from a nonempty range tile it exactly: the first
/// starts at `s`, each next one starts where the previous ended, the last
/// ends at `e`, and every block is a well-formed aligned CIDR block.
pub proof fn lemma_range_blocks_partition(s: int, e: int)
    requires
        0 <= s <= e < 0x1_0000_0000,
    ensures
        range_blocks(s, e).len() >= 1,
        range_blocks(s, e)[0].addr == s,
        forall|i: int| 0 <= i < range_blocks(s, e).len() ==> (#[trigger] range_blocks(s, e)[i]).wf(),
        forall|i: int|
            0 <= i < range_blocks(s, e).len() - 1 ==> (#[trigger] range_blocks(s, e)[i + 1]).addr
                == range_blocks(s, e)[i].addr + range_blocks(s, e)[i].block_size(),
        range_blocks(s, e).last().addr + range_blocks(s, e).last().block_size() == e + 1,
    decreases e - s,
{
    let bs = range_blocks(s, e);
    let low = spec_low(s as nat, e as nat);
    let b0 = spec_block(s as nat, e as nat);
    lemma_range_step(s as nat, e as nat);
    assert(b0.block_size() == pow2(low) as int) by {
        assert((32 - b0.prefix) as nat == low);
    }
    assert(b0.wf());
    let c2 = s + pow2(low) as int;
    if c2 <= e {
        lemma_range_blocks_partition(c2, e);
        let tail = range_blocks(c2, e);
        assert(bs == seq![b0] + tail);
        assert(bs[0] == b0);
        assert(forall|i: int| 1 <= i < bs.len() ==> bs[i] == tail[i - 1]);
        assert(bs[1].addr == b0.addr + b0.block_size());
        assert forall|i: int| 0 <= i < bs.len() - 1 implies (#[trigger] bs[i + 1]).addr == bs[i].addr
            + bs[i].block_size() by {
            if i >= 1 {
                assert(tail[i] == bs[i + 1]);
                assert(tail[i - 1 + 1].addr == tail[i - 1].addr + tail[i - 1].block_size());
            }
        }
        assert(bs.last() == tail.last());
    } else {
        assert(c2 == e + 1);
        assert(range_blocks(c2, e) =~= Seq::<CidrBlock>::empty());
        assert(bs =~= seq![b0]);
        assert(bs.last() == b0);
    }
}

/// The union of the spans of the expanded blocks is exactly `[s, e]`,
/// and no two blocks overlap.
pub proof fn lemma_range_blocks_cover(s: int, e: int)
    requires
        0 <= s <= e < 0x1_0000_0000,
    ensures
        forall|i: int, j: int|
            0 <= i < j < range_blocks(s, e).len() ==> (#[trigger] range_blocks(s, e)[i]).addr
                + range_blocks(s, e)[i].block_size() <= (#[trigger] range_blocks(s, e)[j]).addr,
        forall|i: int|
            0 <= i < range_blocks(s, e).len() ==> s <= (#[trigger] range_blocks(s, e)[i]).addr
                && range_blocks(s, e)[i].addr + range_blocks(s, e)[i].block_size() <= e + 1,
        forall|a: int| #[trigger] covered_by(range_blocks(s, e), a) <==> s <= a <= e,
    decreases e - s,
{
    let bs = range_blocks(s, e);
    let low = spec_low(s as nat, e as nat);
    let b0 = spec_block(s as nat, e as nat);
    lemma_range_step(s as nat, e as nat);
    lemma_range_blocks_partition(s, e);
    assert(b0.block_size() == pow2(low) as int) by {
        assert((32 - b0.prefix) as nat == low);
    }
    let c2 = s + pow2(low) as int;
    if c2 <= e {
        lemma_range_blocks_cover(c2, e);
        let tail = range_blocks(c2, e);
        assert(bs == seq![b0] + tail);
        assert(forall|i: int| 1 <= i < bs.len() ==> bs[i] == tail[i - 1]);
        assert forall|i: int, j: int| 0 <= i < j < bs.len() implies (#[trigger] bs[i]).addr
            + bs[i].block_size() <= (#[trigger] bs[j]).addr by {
            if i == 0 {
                assert(c2 <= tail[j - 1].addr);
            } else {
                assert(tail[i - 1].addr + tail[i - 1].block_size() <= tail[j - 1].addr);
            }
        }
        assert forall|a: int| #[trigger] covered_by(bs, a) <==> s <= a <= e by {
            if covered_by(bs, a) {
                let i = choose|i: int|
                    0 <= i < bs.len() && bs[i].addr <= a < bs[i].addr + (
                    #[trigger] bs[i]).block_size();
                if i == 0 {
                    assert(s <= a <= e);
                } else {
                    assert(bs[i] == tail[i - 1]);
                    assert(covered_by(tail, a));
                }
            }
            if s <= a <= e {
                if a < c2 {
                    assert(bs[0].addr <= a < bs[0].addr + bs[0].block_size());
                    assert(covered_by(bs, a));
                } else {
                    assert(covered_by(tail, a));
                    let i = choose|i: int|
                        0 <= i < tail.len() && tail[i].addr <= a < tail[i].addr + (
                        #[trigger] tail[i]).block_size();
                    assert(bs[i + 1] == tail[i]);
                    assert(bs[i + 1].addr <= a < bs[i + 1].addr + bs[i + 1].block_size());
                    assert(covered_by(bs, a));
                }
            }
        }
    } else {
        assert(c2 == e + 1);
        assert(range_blocks(c2, e) =~= Seq::<CidrBlock>::empty());
        assert(bs =~= seq![b0]);
        assert forall|a: int| #[trigger] covered_by(bs, a) <==> s <= a <= e by {
            if s <= a <= e {
                assert(bs[0].addr <= a < bs[0].addr + bs[0].block_size());
                assert(covered_by(bs, a));
            }
        }
    }
}

/// Computes 2 to the power `k`.
fn pow2_u64(k: u32) -> (r: u64)
    requires
        k <= 32,
    ensures
        r == pow2(k as nat),
{
    let mut r: u64 = 1;
    let mut i: u32 = 0;
    proof {
        lemma2_to64();
    }
    while i < k
        invariant
            i <= k <= 32,
            r == pow2(i as nat),
        decreases k - i,
    {
        proof {
            if (i as nat) < 32 {
                lemma_pow2_strictly_increases(i as nat, 32);
            }
            lemma2_to64();
            vstd::arithmetic::power2::lemma_pow2_unfold((i + 1) as nat);
        }
        r = r * 2;
        i = i + 1;
    }
    r
}

/// Counts the trailing zero bits of `x`, 32 for zero.
fn tz32(x: u32) -> (t: u32)
    ensures
        t == spec_tz(x as nat),
        t <= 32,
        (x as nat) % pow2(t as nat) == 0,
{
    let mut t: u32 = 0;
    let mut y: u32 = x;
    proof {
        lemma2_to64();
    }
    while t < 32 && y % 2 == 0
        invariant
            t <= 32,
            x as nat == (y as nat) * pow2(t as nat),
            spec_tz_from(x as nat, 0) == spec_tz_from(x as nat, t as nat),
        decreases 32 - t,
    {
        proof {
            lemma_pow2_pos(t as nat);
            vstd::arithmetic::power2::lemma_pow2_unfold((t + 1) as nat);
            // y is even, so x is divisible by the next power of two
            assert(x as nat == ((y / 2) as nat) * pow2((t + 1) as nat)) by (nonlinear_arith)
                requires
                    x as nat == (y as nat) * pow2(t as nat),
                    y % 2 == 0,
                    pow2((t + 1) as nat) == 2 * pow2(t as nat),
            ;
            assert((x as nat) % pow2((t + 1) as nat) == 0) by (nonlinear_arith)
                requires
                    x as nat == ((y / 2) as nat) * pow2((t + 1) as nat),
                    pow2((t + 1) as nat) > 0,
            ;
            lemma_pow2_pos((t + 1) as nat);
        }
        y = y / 2;
        t = t + 1;
    }
    proof {
        assert((x as nat) % pow2(t as nat) == 0) by (nonlinear_arith)
            requires
                x as nat == (y as nat) * pow2(t as nat),
                pow2(t as nat) > 0,
        ;
        if t < 32 {
            // y is odd here, so the next power of two does not divide x
            lemma_pow2_pos(t as nat);
            vstd::arithmetic::power2::lemma_pow2_unfold((t + 1) as nat);
            assert((x as nat) % pow2((t + 1) as nat) != 0) by (nonlinear_arith)
                requires
                    x as nat == (y as nat) * pow2(t as nat),
                    y % 2 == 1,
                    pow2((t + 1) as nat) == 2 * pow2(t as nat),
                    pow2(t as nat) > 0,
            ;
        }
    }
    t
}

/// Finds the highest set bit position of `r`, capped at 32.
fn hb_u64(r: u64) -> (h: u32)
    requires
        1 <= r <= 0x1_0000_0000,
    ensures
        h == spec_hb(r as nat),
        h <= 32,
        pow2(h as nat) <= r as nat,
        (r as nat) < pow2((h + 1) as nat),
{
    let mut h: u32 = 0;
    let mut p: u64 = 1;
    proof {
        lemma2_to64();
    }
    while h < 32 && p * 2 <= r
        invariant
            h <= 32,
            p == pow2(h as nat),
            p <= r <= 0x1_0000_0000,
            spec_hb_from(r as nat, 0) == spec_hb_from(r as nat, h as nat),
        decreases 32 - h,
    {
        proof {
            vstd::arithmetic::power2::lemma_pow2_unfold((h + 1) as nat);
        }
        p = p * 2;
        h = h + 1;
    }
    proof {
        if h < 32 {
            vstd::arithmetic::power2::lemma_pow2_unfold((h + 1) as nat);
        } else {
            lemma2_to64();
            lemma_pow2_strictly_increases(32, 33);
        }
    }
    h
}

/// Expands the inclusive address range `[start, end]` into the greedy
/// minimal sequence of aligned power-of-two blocks; empty when
/// `start > end`.
pub fn range_to_blocks(start: u32, end: u32) -> (r: Vec<CidrBlock>)
    ensures
        r@ == range_blocks(start as int, end as int),
{
    let mut blocks: Vec<CidrBlock> = Vec::new();
    if start > end {
        proof {
            assert(blocks@ =~= range_blocks(start as int, end as int));
        }
        return blocks;
    }
    let mut cursor: u32 = start;
    proof {
        assert(blocks@ + range_blocks(cursor as int, end as int) =~= range_blocks(
            start as int,
            end as int,
        ));
        assert(blocks@ + Seq::<CidrBlock>::empty() =~= blocks@);
    }
    while cursor <= end
        invariant_except_break
            range_blocks(start as int, end as int) == blocks@ + range_blocks(
                cursor as int,
                end as int,
            ),
        invariant
            start <= end,
            start <= cursor,
            cursor as int <= end as int + 1,
            blocks@ + Seq::<CidrBlock>::empty() == blocks@,
        ensures
            blocks@ == range_blocks(start as int, end as int),
        decreases end + 1 - cursor,
    {
        let t = tz32(cursor);
        let rem: u64 = (end - cursor) as u64 + 1;
        let h = hb_u64(rem);
        let low: u32 = if t < h {
            t
        } else {
            h
        };
        let bs: u64 = pow2_u64(low);
        proof {
            lemma_range_step(cursor as nat, end as nat);
            assert(low as nat == spec_low(cursor as nat, end as nat));
        }
        let b = CidrBlock { addr: cursor, prefix: (32 - low) as u8 };
        proof {
            assert(b == spec_block(cursor as nat, end as nat));
            assert(range_blocks(cursor as int, end as int) == seq![b] + range_blocks(
                cursor as int + bs as int,
                end as int,
            ));
            assert(blocks@.push(b) + range_blocks(cursor as int + bs as int, end as int)
                =~= blocks@ + (seq![b] + range_blocks(cursor as int + bs as int, end as int)));
        }
        blocks.push(b);
        proof {
            assert(blocks@ + Seq::<CidrBlock>::empty() =~= blocks@);
        }
        let next: u64 = (cursor as u64) + bs;
        if next > 0xFFFF_FFFFu64 {
            proof {
                assert(next == end as int + 1);
                assert(range_blocks(next as int, end as int) =~= Seq::<CidrBlock>::empty());
            }
            break;
        }
        cursor = next as u32;
    }
    blocks
}

/// The canonical dotted-decimal text of a 32-bit address.
pub open spec fn ipv4_text(a: nat) -> Seq<char> {
    dec_rep(a / 0x1000000 % 256) + seq!['.'] + dec_rep(a / 0x10000 % 256) + seq!['.'] + dec_rep(
        a / 256 % 256,
    ) + seq!['.'] + dec_rep(a % 256)
}

/// The canonical text of a CIDR block: dotted-decimal address, a slash,
/// and the prefix length.
pub open spec fn cidr_text(b: CidrBlock) -> Seq<char> {
    ipv4_text(b.addr as nat) + seq!['/'] + dec_rep(b.prefix as nat)
}

/// Renders a block as its canonical CIDR text.
pub fn format_block(b: CidrBlock) -> (r: String)
    ensures
        r@ == cidr_text(b),
{
    let mut s = String::new();
    push_dec_u8(&mut s, (b.addr / 0x1000000 % 256) as u8);
    s.append(".");
    push_dec_u8(&mut s, (b.addr / 0x10000 % 256) as u8);
    s.append(".");
    push_dec_u8(&mut s, (b.addr / 256 % 256) as u8);
    s.append(".");
    push_dec_u8(&mut s, (b.addr % 256) as u8);
    s.append("/");
    push_dec_u8(&mut s, b.prefix);
    proof {
        reveal_strlit(".");
        reveal_strlit("/");
        assert("."@ =~= seq!['.']);
        assert("/"@ =~= seq!['/']);
        assert(s@ =~= cidr_text(b));
    }
    s
}

/// A canonical decimal octet: nonempty, digits only, no leading zero,
/// value at most 255.
pub open spec fn is_octet_text(s: Seq<char>) -> bool {
    &&& s.len() >= 1
    &&& all_digits(s)
    &&& (s.len() > 1 ==> s[0] != '0')
    &&& dec_value(s) <= 255
}

/// The address a dotted-quad string denotes, or `None` when it is not
/// four canonical octets separated by dots.
pub open spec fn parse_ipv4_spec(s: Seq<char>) -> Option<u32> {
    let parts = split_char(s, '.');
    if parts.len() == 4 && is_octet_text(parts[0]) && is_octet_text(parts[1]) && is_octet_text(
        parts[2],
    ) && is_octet_text(parts[3]) {
        Some(
            (dec_value(parts[0]) * 0x1000000 + dec_value(parts[1]) * 0x10000 + dec_value(parts[2])
                * 256 + dec_value(parts[3])) as u32,
        )
    } else {
        None
    }
}

/// Reads one decimal octet, accepting exactly the canonical octet texts.
fn parse_octet(t: &str) -> (r: Option<u32>)
    ensures
        r is Some <==> is_octet_text(t@),
        r is Some ==> r->Some_0 == dec_value(t@) && r->Some_0 <= 255,
{
    let n = t.unicode_len();
    if n == 0 {
        return None;
    }
    if n > 3 {
        proof {
            if is_octet_text(t@) {
                assert(is_digit(t@[0]));
                assert(t@[0] != '0');
                assert(digit_val(t@[0]) >= 1);
                lemma_dec_value_min(t@);
            }
        }
        return None;
    }
    let zero = '0' as u32;
    let nine = '9' as u32;
    let mut acc: u32 = 0;
    let mut i: usize = 0;
    proof {
        assert(t@.take(0) =~= Seq::<char>::empty());
    }
    while i < n
        invariant
            1 <= n == t@.len() <= 3,
            i <= n,
            zero == '0' as u32,
            nine == '9' as u32,
            acc == dec_value(t@.take(i as int)),
            i == 0 ==> acc == 0,
            i == 1 ==> acc <= 9,
            i == 2 ==> acc <= 99,
            i == 3 ==> acc <= 999,
            forall|k: int| 0 <= k < i ==> is_digit(#[trigger] t@[k]),
        decreases n - i,
    {
        let c = t.get_char(i);
        let cv = c as u32;
        if cv < zero || cv > nine {
            proof {
                assert(!is_digit(t@[i as int]));
            }
            return None;
        }
        proof {
            assert(t@.take(i + 1).drop_last() =~= t@.take(i as int));
            assert(t@.take(i + 1).last() == t@[i as int]);
            assert(digit_val(t@[i as int]) == (cv - zero) as nat);
        }
        acc = acc * 10 + (cv - zero);
        i += 1;
    }
    proof {
        assert(t@.take(n as int) =~= t@);
    }
    if n > 1 {
        let c0 = t.get_char(0);
        if c0 == '0' {
            return None;
        }
    }
    if acc > 255 {
        None
    } else {
        Some(acc)
    }
}

/// Reads a dotted-quad IPv4 address, accepting exactly the canonical
/// forms that `parse_ipv4_spec` does.
pub fn parse_ipv4(s: &str) -> (r: Option<u32>)
    ensures
        r == parse_ipv4_spec(s@),
{
    let parts = split_str(s, '.');
    proof {
        assert(parts@.map_values(|p: String| p@).len() == parts@.len());
    }
    if parts.len() != 4 {
        return None;
    }
    proof {
        assert forall|k: int| 0 <= k < 4 implies #[trigger] parts@[k]@ == split_char(s@, '.')[k] by {
            assert(parts@.map_values(|p: String| p@)[k] == parts@[k]@);
        }
    }
    let o0 = match parse_octet(parts[0].as_str()) {
        Some(v) => v,
        None => {
            return None;
        },
    };
    let o1 = match parse_octet(parts[1].as_str()) {
        Some(v) => v,
        None => {
            return None;
        },
    };
    let o2 = match parse_octet(parts[2].as_str()) {
        Some(v) => v,
        None => {
            return None;
        },
    };
    let o3 = match parse_octet(parts[3].as_str()) {
        Some(v) => v,
        None => {
            return None;
        },
    };
    Some(o0 * 0x1000000 + o1 * 0x10000 + o2 * 256 + o3)
}

/// The texts of the blocks tiling `[s, e]`, in ascending address order.
pub open spec fn range_cidr_texts(s: int, e: int) -> Seq<Seq<char>> {
    range_blocks(s, e).map_values(|b: CidrBlock| cidr_text(b))
}

/// What one raw entry contributes to the normalized output: itself when
/// it is CIDR notation, its range expansion when it is a well-formed
/// `start-end` range, and nothing otherwise.
pub open spec fn entry_texts(entry: Seq<char>) -> Seq<Seq<char>> {
    if find_char(entry, '/') >= 0 {
        seq![entry]
    } else if find_char(entry, '-') >= 0 {
        let parts = split_char(entry, '-');
        if parts.len() == 2 {
            match (parse_ipv4_spec(parts[0]), parse_ipv4_spec(parts[1])) {
                (Some(a), Some(b)) => range_cidr_texts(a as int, b as int),
                _ => Seq::empty(),
            }
        } else {
            Seq::empty()
        }
    } else {
        Seq::empty()
    }
}

/// The normalized output for a whole entry sequence: each entry's
/// contribution, concatenated in entry order.
pub open spec fn normalize_spec(entries: Seq<Seq<char>>) -> Seq<Seq<char>> {
    entries.map_values(|en: Seq<char>| entry_texts(en)).flatten()
}

/// Converts registry resource strings into canonical CIDR text.
pub struct CidrConverter;

impl CidrConverter {
    pub fn new() -> (c: CidrConverter) {
        CidrConverter
    }

    /// Expands one inclusive `start`-`end` range into CIDR texts, or
    /// reports a parse error when either bound is not a dotted quad.
    pub fn range_to_cidrs(&self, start_ip: &str, end_ip: &str) -> (r: Result<
        Vec<String>,
        SyncError,
    >)
        ensures
            ({
                let ps = parse_ipv4_spec(start_ip@);
                let pe = parse_ipv4_spec(end_ip@);
                match (ps, pe) {
                    (Some(a), Some(b)) => r is Ok && r->Ok_0@.map_values(|t: String| t@)
                        == range_cidr_texts(a as int, b as int),
                    _ => r is Err && r->Err_0 == SyncError::ParseError,
                }
            }),
    {
        let start = match parse_ipv4(start_ip) {
            Some(v) => v,
            None => {
                return Err(SyncError::ParseError);
            },
        };
        let end = match parse_ipv4(end_ip) {
            Some(v) => v,
            None => {
                return Err(SyncError::ParseError);
            },
        };
        let blocks = range_to_blocks(start, end);
        let mut out: Vec<String> = Vec::new();
        let mut i: usize = 0;
        proof {
            assert(out@.map_values(|t: String| t@) =~= blocks@.take(0).map_values(
                |b: CidrBlock| cidr_text(b),
            ));
        }
        while i < blocks.len()
            invariant
                i <= blocks.len(),
                blocks@ == range_blocks(start as int, end as int),
                out@.map_values(|t: String| t@) == blocks@.take(i as int).map_values(
                    |b: CidrBlock| cidr_text(b),
                ),
            decreases blocks.len() - i,
        {
            let text = format_block(blocks[i]);
            proof {
                let lhs = (out@.push(text)).map_values(|t: String| t@);
                let rhs = blocks@.take(i + 1).map_values(|b: CidrBlock| cidr_text(b));
                assert(out@.map_values(|t: String| t@).len() == out@.len());
                assert(blocks@.take(i as int).map_values(|b: CidrBlock| cidr_text(b)).len()
                    == i);
                assert(out@.len() == i);
                assert(lhs.len() == rhs.len());
                assert forall|k: int| 0 <= k < lhs.len() implies lhs[k] == rhs[k] by {
                    if k < i {
                        assert(lhs[k] == out@[k]@);
                        assert(out@.map_values(|t: String| t@)[k] == out@[k]@);
                        assert(blocks@.take(i as int).map_values(|b: CidrBlock| cidr_text(b))[k]
                            == cidr_text(blocks@.take(i as int)[k]));
                        assert(rhs[k] == cidr_text(blocks@.take(i + 1)[k]));
                    } else {
                        assert(lhs[k] == text@);
                        assert(rhs[k] == cidr_text(blocks@.take(i + 1)[k]));
                    }
                }
                assert(lhs =~= rhs);
            }
            out.push(text);
            i += 1;
        }
        proof {
            assert(blocks@.take(blocks@.len() as int) =~= blocks@);
        }
        Ok(out)
    }

    /// Normalizes a sequence of raw resource strings: CIDR entries pass
    /// through unchanged, range entries are expanded, and anything
    /// malformed is dropped without failing the run.
    pub fn convert_subnets(&self, subnets: &[String]) -> (r: Vec<String>)
        ensures
            r@.map_values(|t: String| t@) == normalize_spec(
                subnets@.map_values(|t: String| t@),
            ),
    {
        let ghost entries = subnets@.map_values(|t: String| t@);
        let mut out: Vec<String> = Vec::new();
        let mut idx: usize = 0;
        proof {
            assert(entries.take(0).map_values(|en: Seq<char>| entry_texts(en))
                =~= Seq::<Seq<Seq<char>>>::empty());
            assert(out@.map_values(|t: String| t@) =~= normalize_spec(entries.take(0)));
        }
        while idx < subnets.len()
            invariant
                idx <= subnets.len(),
                entries == subnets@.map_values(|t: String| t@),
                out@.map_values(|t: String| t@) == normalize_spec(entries.take(idx as int)),
            decreases subnets.len() - idx,
        {
            let entry = &subnets[idx];
            let ghost pre = out@;
            let ghost ev = entries[idx as int];
            proof {
                assert(ev == entry@);
            }
            if contains_char(entry.as_str(), '/') {
                out.push(entry.clone());
                proof {
                    assert(out@.map_values(|t: String| t@) =~= pre.map_values(|t: String| t@)
                        + entry_texts(ev));
                }
            } else if contains_char(entry.as_str(), '-') {
                let parts = split_str(entry.as_str(), '-');
                proof {
                    assert(parts@.map_values(|p: String| p@).len() == parts@.len());
                }
                if parts.len() == 2 {
                    proof {
                        assert(parts@[0]@ == split_char(ev, '-')[0] && parts@[1]@ == split_char(
                            ev,
                            '-',
                        )[1]) by {
                            assert(parts@.map_values(|p: String| p@)[0] == parts@[0]@);
                            assert(parts@.map_values(|p: String| p@)[1] == parts@[1]@);
                        }
                    }
                    match self.range_to_cidrs(parts[0].as_str(), parts[1].as_str()) {
                        Ok(mut cs) => {
                            proof {
                                assert((pre + cs@).map_values(|t: String| t@) =~= pre.map_values(
                                    |t: String| t@,
                                ) + entry_texts(ev));
                            }
                            out.append(&mut cs);
                        },
                        Err(_) => {
                            proof {
                                assert(pre.map_values(|t: String| t@) + entry_texts(ev)
                                    =~= pre.map_values(|t: String| t@));
                            }
                        },
                    }
                } else {
                    proof {
                        assert(pre.map_values(|t: String| t@) + entry_texts(ev) =~= pre.map_values(
                            |t: String| t@,
                        ));
                    }
                }
            } else {
                proof {
                    assert(pre.map_values(|t: String| t@) + entry_texts(ev) =~= pre.map_values(
                        |t: String| t@,
                    ));
                }
            }
            proof {
                broadcast use vstd::seq_lib::group_seq_properties;

                assert(entries.take(idx + 1) =~= entries.take(idx as int).push(ev));
                assert(entries.take(idx + 1).map_values(|en: Seq<char>| entry_texts(en))
                    =~= entries.take(idx as int).map_values(|en: Seq<char>| entry_texts(en)).push(
                    entry_texts(ev),
                ));
                Seq::lemma_flatten_push(
                    entries.take(idx as int).map_values(|en: Seq<char>| entry_texts(en)),
                    entry_texts(ev),
                );
                assert(normalize_spec(entries.take(idx + 1)) == normalize_spec(
                    entries.take(idx as int),
                ) + entry_texts(ev));
                assert(out@.map_values(|t: String| t@) == normalize_spec(entries.take(idx + 1)));
            }
            idx += 1;
        }
        proof {
            assert(entries.take(entries.len() as int) =~= entries);
        }
        out
    }
}

} // verus!
