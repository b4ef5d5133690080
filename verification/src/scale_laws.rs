//! No encoding is the beginning of another.
use crate::bitfield::Bits;
use crate::scale::{
    approval_bytes, approval_item, assignment_item, bits_bytes, block_bytes, bool_bytes, byte_item,
    compact, fits_width, hash_item, hashes_bytes, indexed_hash_item, items_bytes, layout_bytes,
    list_bytes, little_endian, mark_bytes, range_bytes, tranche_item, u32_bytes, u64_bytes, Layout,
};
use crate::types::{Approval, Block, OurAssignment, Tranche, H256};
use vstd::prelude::*;

verus! {

/// Two sequences that go on to become the same are the same, if they are equally long.
pub(crate) proof fn lemma_same_head<T>(a: Seq<T>, b: Seq<T>, x: Seq<T>, y: Seq<T>)
    requires
        a + x == b + y,
        a.len() == b.len(),
    ensures
        a == b,
        x == y,
{
    let s = a + x;
    let t = b + y;
    assert(s.len() == t.len());
    assert forall|i: int| 0 <= i < a.len() implies a[i] == b[i] by {
        assert(s[i] == t[i]);
    }
    assert forall|i: int| 0 <= i < x.len() implies x[i] == y[i] by {
        assert(s[a.len() + i] == t[a.len() + i]);
    }
    assert(a =~= b);
    assert(x =~= y);
}

proof fn lemma_le_len(n: nat, width: nat)
    ensures
        little_endian(n, width).len() == width,
    decreases width,
{
    if width > 0 {
        lemma_le_len(n / 256, (width - 1) as nat);
    }
}

proof fn lemma_le_injective(a: nat, b: nat, width: nat)
    requires
        fits_width(a, width),
        fits_width(b, width),
        little_endian(a, width) == little_endian(b, width),
    ensures
        a == b,
    decreases width,
{
    if width > 0 {
        let w = (width - 1) as nat;
        let s = seq![(a % 256) as u8] + little_endian(a / 256, w);
        let t = seq![(b % 256) as u8] + little_endian(b / 256, w);
        assert(s[0] == t[0]);
        lemma_same_head(
            seq![(a % 256) as u8],
            seq![(b % 256) as u8],
            little_endian(a / 256, w),
            little_endian(b / 256, w),
        );
        lemma_le_injective(a / 256, b / 256, w);
    }
}

/// Two numbers of the same width that begin the same bytes are the same.
proof fn lemma_le(a: nat, b: nat, width: nat, x: Seq<u8>, y: Seq<u8>)
    requires
        fits_width(a, width),
        fits_width(b, width),
        little_endian(a, width) + x == little_endian(b, width) + y,
    ensures
        a == b,
        x == y,
{
    lemma_le_len(a, width);
    lemma_le_len(b, width);
    lemma_same_head(little_endian(a, width), little_endian(b, width), x, y);
    lemma_le_injective(a, b, width);
}

proof fn lemma_fits_1(n: nat)
    requires
        n < 0x100,
    ensures
        fits_width(n, 1),
{
    reveal_with_fuel(fits_width, 2);
}

proof fn lemma_fits_2(n: nat)
    requires
        n < 0x1_0000,
    ensures
        fits_width(n, 2),
{
    reveal_with_fuel(fits_width, 3);
}

proof fn lemma_fits_4(n: nat)
    requires
        n <= u32::MAX,
    ensures
        fits_width(n, 4),
{
    reveal_with_fuel(fits_width, 5);
}

proof fn lemma_fits_8(n: nat)
    requires
        n <= u64::MAX,
    ensures
        fits_width(n, 8),
{
    lemma_fits_4(n / 0x1_0000_0000);
    reveal_with_fuel(fits_width, 5);
    assert(n / 256 / 256 / 256 / 256 == n / 0x1_0000_0000);
}

/// Two 32-bit numbers that begin the same bytes are the same.
pub(crate) proof fn lemma_u32(a: u32, b: u32, x: Seq<u8>, y: Seq<u8>)
    requires
        u32_bytes(a) + x == u32_bytes(b) + y,
    ensures
        a == b,
        x == y,
{
    lemma_fits_4(a as nat);
    lemma_fits_4(b as nat);
    lemma_le(a as nat, b as nat, 4, x, y);
}

/// Two 64-bit numbers that begin the same bytes are the same.
pub(crate) proof fn lemma_u64(a: u64, b: u64, x: Seq<u8>, y: Seq<u8>)
    requires
        u64_bytes(a) + x == u64_bytes(b) + y,
    ensures
        a == b,
        x == y,
{
    lemma_fits_8(a as nat);
    lemma_fits_8(b as nat);
    lemma_le(a as nat, b as nat, 8, x, y);
}

proof fn lemma_le_first(n: nat, width: nat)
    requires
        width > 0,
    ensures
        little_endian(n, width).len() == width,
        little_endian(n, width)[0] == n % 256,
{
    lemma_le_len(n, width);
}

/// The two lowest bits of the first byte of a compact number.
spec fn compact_mode(n: nat) -> int {
    if n < 0x40 {
        0
    } else if n < 0x4000 {
        1
    } else if n < 0x4000_0000 {
        2
    } else {
        3
    }
}

proof fn lemma_compact_mode(n: nat)
    ensures
        compact(n).len() > 0,
        compact(n)[0] % 4 == compact_mode(n),
{
    if n < 0x40 {
        lemma_le_first(n * 4, 1);
    } else if n < 0x4000 {
        lemma_le_first(n * 4 + 1, 2);
    } else if n < 0x4000_0000 {
        lemma_le_first(n * 4 + 2, 4);
    }
}

/// Two compact numbers that begin the same bytes are the same.
pub(crate) proof fn lemma_compact(a: nat, b: nat, x: Seq<u8>, y: Seq<u8>)
    requires
        a <= u32::MAX,
        b <= u32::MAX,
        compact(a) + x == compact(b) + y,
    ensures
        a == b,
        x == y,
{
    lemma_compact_mode(a);
    lemma_compact_mode(b);
    assert((compact(a) + x)[0] == compact(a)[0]);
    assert((compact(b) + y)[0] == compact(b)[0]);
    assert(compact_mode(a) == compact_mode(b));
    if a < 0x40 {
        lemma_fits_1(a * 4);
        lemma_fits_1(b * 4);
        lemma_le(a * 4, b * 4, 1, x, y);
    } else if a < 0x4000 {
        lemma_fits_2(a * 4 + 1);
        lemma_fits_2(b * 4 + 1);
        lemma_le(a * 4 + 1, b * 4 + 1, 2, x, y);
    } else if a < 0x4000_0000 {
        lemma_fits_4(a * 4 + 2);
        lemma_fits_4(b * 4 + 2);
        lemma_le(a * 4 + 2, b * 4 + 2, 4, x, y);
    } else {
        let p = little_endian(a, 4);
        let q = little_endian(b, 4);
        assert(seq![3u8] + p + x =~= seq![3u8] + (p + x));
        assert(seq![3u8] + q + y =~= seq![3u8] + (q + y));
        lemma_same_head(seq![3u8], seq![3u8], p + x, q + y);
        lemma_fits_4(a);
        lemma_fits_4(b);
        lemma_le(a, b, 4, x, y);
    }
}

/// Among the values that `ok` admits, no two have encodings that begin the same bytes.
pub open spec fn unambiguous<T>(item: spec_fn(T) -> Seq<u8>, ok: spec_fn(T) -> bool) -> bool {
    forall|a: T, b: T, x: Seq<u8>, y: Seq<u8>|
        ok(a) && ok(b) && #[trigger] (item(a) + x) == #[trigger] (item(b) + y) ==> a == b && x == y
}

/// `ok` admits every item of a list.
pub open spec fn all_ok<T>(s: Seq<T>, ok: spec_fn(T) -> bool) -> bool {
    forall|i: int| 0 <= i < s.len() ==> ok(#[trigger] s[i])
}

proof fn lemma_items<T>(
    a: Seq<T>,
    b: Seq<T>,
    item: spec_fn(T) -> Seq<u8>,
    ok: spec_fn(T) -> bool,
    x: Seq<u8>,
    y: Seq<u8>,
)
    requires
        unambiguous(item, ok),
        all_ok(a, ok),
        all_ok(b, ok),
        a.len() == b.len(),
        items_bytes(a, item) + x == items_bytes(b, item) + y,
    ensures
        a == b,
        x == y,
    decreases a.len(),
{
    if a.len() == 0 {
        assert(a =~= b);
        assert(items_bytes(a, item) + x =~= x);
        assert(items_bytes(b, item) + y =~= y);
    } else {
        let p = items_bytes(a.skip(1), item);
        let q = items_bytes(b.skip(1), item);
        assert(item(a[0]) + p + x =~= item(a[0]) + (p + x));
        assert(item(b[0]) + q + y =~= item(b[0]) + (q + y));
        assert(item(a[0]) + (p + x) == item(b[0]) + (q + y));
        assert(ok(a[0]) && ok(b[0]));
        assert(a[0] == b[0] && p + x == q + y);
        assert(all_ok(a.skip(1), ok)) by {
            assert(forall|i: int| 0 <= i < a.skip(1).len() ==> a.skip(1)[i] == a[i + 1]);
        }
        assert(all_ok(b.skip(1), ok)) by {
            assert(forall|i: int| 0 <= i < b.skip(1).len() ==> b.skip(1)[i] == b[i + 1]);
        }
        lemma_items(a.skip(1), b.skip(1), item, ok, x, y);
        assert(a =~= seq![a[0]] + a.skip(1));
        assert(b =~= seq![b[0]] + b.skip(1));
    }
}

/// Two lists that begin the same bytes are the same.
pub(crate) proof fn lemma_list<T>(
    a: Seq<T>,
    b: Seq<T>,
    item: spec_fn(T) -> Seq<u8>,
    ok: spec_fn(T) -> bool,
    x: Seq<u8>,
    y: Seq<u8>,
)
    requires
        unambiguous(item, ok),
        all_ok(a, ok),
        all_ok(b, ok),
        a.len() <= u32::MAX,
        b.len() <= u32::MAX,
        list_bytes(a, item) + x == list_bytes(b, item) + y,
    ensures
        a == b,
        x == y,
{
    let p = items_bytes(a, item);
    let q = items_bytes(b, item);
    assert(compact(a.len()) + p + x =~= compact(a.len()) + (p + x));
    assert(compact(b.len()) + q + y =~= compact(b.len()) + (q + y));
    lemma_compact(a.len(), b.len(), p + x, q + y);
    lemma_items(a, b, item, ok, x, y);
}

/// Two truth values that begin the same bytes are the same.
pub(crate) proof fn lemma_bool(a: bool, b: bool, x: Seq<u8>, y: Seq<u8>)
    requires
        bool_bytes(a) + x == bool_bytes(b) + y,
    ensures
        a == b,
        x == y,
{
    lemma_same_head(bool_bytes(a), bool_bytes(b), x, y);
    assert(bool_bytes(a)[0] == bool_bytes(b)[0]);
}

/// Two bit vectors that begin the same bytes are the same.
pub(crate) proof fn lemma_bits(a: Bits, b: Bits, x: Seq<u8>, y: Seq<u8>)
    requires
        a.storable(),
        b.storable(),
        bits_bytes(a) + x == bits_bytes(b) + y,
    ensures
        a == b,
        x == y,
{
    assert(bits_bytes(a) + x =~= compact(a.count) + (a.bytes + x));
    assert(bits_bytes(b) + y =~= compact(b.count) + (b.bytes + y));
    lemma_compact(a.count, b.count, a.bytes + x, b.bytes + y);
    lemma_same_head(a.bytes, b.bytes, x, y);
}

/// Two hashes that begin the same bytes are the same.
pub(crate) proof fn lemma_hash(a: H256, b: H256, x: Seq<u8>, y: Seq<u8>)
    requires
        a@ + x == b@ + y,
    ensures
        a == b,
        x == y,
{
    lemma_same_head(a@, b@, x, y);
    assert(forall|i: int| 0 <= i < 32 ==> a@[i] == b@[i]);
    assert(a =~= b);
}

spec fn any<T>() -> spec_fn(T) -> bool {
    |t: T| true
}

proof fn lemma_byte_item()
    ensures
        unambiguous(byte_item(), any()),
{
    assert forall|a: u8, b: u8, x: Seq<u8>, y: Seq<u8>|
        any()(a) && any()(b) && #[trigger] (byte_item()(a) + x) == #[trigger] (byte_item()(b)
            + y) implies a == b && x == y by {
        lemma_same_head(seq![a], seq![b], x, y);
        assert(seq![a][0] == seq![b][0]);
    }
}

proof fn lemma_hash_item()
    ensures
        unambiguous(hash_item(), any()),
{
    assert forall|a: H256, b: H256, x: Seq<u8>, y: Seq<u8>|
        any()(a) && any()(b) && #[trigger] (hash_item()(a) + x) == #[trigger] (hash_item()(b)
            + y) implies a == b && x == y by {
        lemma_hash(a, b, x, y);
    }
}

proof fn lemma_indexed_hash_item()
    ensures
        unambiguous(indexed_hash_item(), any()),
{
    assert forall|a: (u32, H256), b: (u32, H256), x: Seq<u8>, y: Seq<u8>|
        any()(a) && any()(b) && #[trigger] (indexed_hash_item()(a) + x) == #[trigger] (
        indexed_hash_item()(b) + y) implies a == b && x == y by {
        assert(u32_bytes(a.0) + a.1@ + x =~= u32_bytes(a.0) + (a.1@ + x));
        assert(u32_bytes(b.0) + b.1@ + y =~= u32_bytes(b.0) + (b.1@ + y));
        lemma_u32(a.0, b.0, a.1@ + x, b.1@ + y);
        lemma_hash(a.1, b.1, x, y);
    }
}

proof fn lemma_assignment_item()
    ensures
        unambiguous(assignment_item(), any()),
{
    assert forall|a: (u32, u64), b: (u32, u64), x: Seq<u8>, y: Seq<u8>|
        any()(a) && any()(b) && #[trigger] (assignment_item()(a) + x) == #[trigger] (
        assignment_item()(b) + y) implies a == b && x == y by {
        assert(u32_bytes(a.0) + u64_bytes(a.1) + x =~= u32_bytes(a.0) + (u64_bytes(a.1) + x));
        assert(u32_bytes(b.0) + u64_bytes(b.1) + y =~= u32_bytes(b.0) + (u64_bytes(b.1) + y));
        lemma_u32(a.0, b.0, u64_bytes(a.1) + x, u64_bytes(b.1) + y);
        lemma_u64(a.1, b.1, x, y);
    }
}

spec fn tranche_ok() -> spec_fn(Tranche) -> bool {
    |t: Tranche| t.assignments.len() <= u32::MAX
}

proof fn lemma_tranche_item()
    ensures
        unambiguous(tranche_item(), tranche_ok()),
{
    lemma_assignment_item();
    assert forall|a: Tranche, b: Tranche, x: Seq<u8>, y: Seq<u8>|
        tranche_ok()(a) && tranche_ok()(b) && #[trigger] (tranche_item()(a) + x) == #[trigger] (
        tranche_item()(b) + y) implies a == b && x == y by {
        let p = list_bytes(a.assignments, assignment_item());
        let q = list_bytes(b.assignments, assignment_item());
        assert(u32_bytes(a.tranche) + p + x =~= u32_bytes(a.tranche) + (p + x));
        assert(u32_bytes(b.tranche) + q + y =~= u32_bytes(b.tranche) + (q + y));
        lemma_u32(a.tranche, b.tranche, p + x, q + y);
        lemma_list(a.assignments, b.assignments, assignment_item(), any(), x, y);
    }
}

proof fn lemma_tranches(a: Seq<Tranche>, b: Seq<Tranche>, x: Seq<u8>, y: Seq<u8>)
    requires
        all_ok(a, tranche_ok()),
        all_ok(b, tranche_ok()),
        a.len() <= u32::MAX,
        b.len() <= u32::MAX,
        list_bytes(a, tranche_item()) + x == list_bytes(b, tranche_item()) + y,
    ensures
        a == b,
        x == y,
{
    lemma_tranche_item();
    lemma_list(a, b, tranche_item(), tranche_ok(), x, y);
}

proof fn lemma_indexed_hashes(a: Seq<(u32, H256)>, b: Seq<(u32, H256)>, x: Seq<u8>, y: Seq<u8>)
    requires
        a.len() <= u32::MAX,
        b.len() <= u32::MAX,
        list_bytes(a, indexed_hash_item()) + x == list_bytes(b, indexed_hash_item()) + y,
    ensures
        a == b,
        x == y,
{
    lemma_indexed_hash_item();
    lemma_list(a, b, indexed_hash_item(), any(), x, y);
}

proof fn lemma_regroup<T>(a: Seq<T>, b: Seq<T>, x: Seq<T>)
    ensures
        a + b + x == a + (b + x),
{
    assert(a + b + x =~= a + (b + x));
}

proof fn lemma_regroup_6<T>(
    a: Seq<T>,
    b: Seq<T>,
    c: Seq<T>,
    d: Seq<T>,
    e: Seq<T>,
    f: Seq<T>,
    x: Seq<T>,
)
    ensures
        a + b + c + d + e + f + x == a + (b + (c + (d + (e + (f + x))))),
{
    lemma_regroup(a + b + c + d + e, f, x);
    lemma_regroup(a + b + c + d, e, f + x);
    lemma_regroup(a + b + c, d, e + (f + x));
    lemma_regroup(a + b, c, d + (e + (f + x)));
    lemma_regroup(a, b, c + (d + (e + (f + x))));
}

/// Two approval entries that begin the same bytes are the same.
pub(crate) proof fn lemma_approval(a: Approval, b: Approval, x: Seq<u8>, y: Seq<u8>)
    requires
        a.storable(),
        b.storable(),
        approval_bytes(a) + x == approval_bytes(b) + y,
    ensures
        a == b,
        x == y,
{
    reveal(approval_bytes);
    let a5 = bool_bytes(a.approved) + x;
    let a4 = bits_bytes(a.assignments) + a5;
    let a3 = mark_bytes(a.our_assignment) + a4;
    let a2 = u64_bytes(a.next_wakeup) + a3;
    let a1 = u32_bytes(a.backing_group) + a2;
    let a0 = list_bytes(a.tranches, tranche_item()) + a1;
    let b5 = bool_bytes(b.approved) + y;
    let b4 = bits_bytes(b.assignments) + b5;
    let b3 = mark_bytes(b.our_assignment) + b4;
    let b2 = u64_bytes(b.next_wakeup) + b3;
    let b1 = u32_bytes(b.backing_group) + b2;
    let b0 = list_bytes(b.tranches, tranche_item()) + b1;
    lemma_regroup_6(
        list_bytes(a.tranches, tranche_item()),
        u32_bytes(a.backing_group),
        u64_bytes(a.next_wakeup),
        mark_bytes(a.our_assignment),
        bits_bytes(a.assignments),
        bool_bytes(a.approved),
        x,
    );
    lemma_regroup_6(
        list_bytes(b.tranches, tranche_item()),
        u32_bytes(b.backing_group),
        u64_bytes(b.next_wakeup),
        mark_bytes(b.our_assignment),
        bits_bytes(b.assignments),
        bool_bytes(b.approved),
        y,
    );
    assert(a0 == b0);
    lemma_tranches(a.tranches, b.tranches, a1, b1);
    lemma_u32(a.backing_group, b.backing_group, a2, b2);
    lemma_u64(a.next_wakeup, b.next_wakeup, a3, b3);
    lemma_bool(a.our_assignment.is_some(), b.our_assignment.is_some(), a4, b4);
    lemma_bits(a.assignments, b.assignments, a5, b5);
    lemma_bool(a.approved, b.approved, x, y);
    assert(a.our_assignment == b.our_assignment) by {
        if a.our_assignment.is_some() {
            assert(a.our_assignment.unwrap() == OurAssignment {  });
            assert(b.our_assignment.unwrap() == OurAssignment {  });
        }
    }
}

spec fn approval_ok() -> spec_fn((H256, Approval)) -> bool {
    |p: (H256, Approval)| p.1.storable()
}

proof fn lemma_approval_item()
    ensures
        unambiguous(approval_item(), approval_ok()),
{
    assert forall|a: (H256, Approval), b: (H256, Approval), x: Seq<u8>, y: Seq<u8>|
        approval_ok()(a) && approval_ok()(b) && #[trigger] (approval_item()(a) + x) == #[trigger] (
        approval_item()(b) + y) implies a == b && x == y by {
        let p = approval_bytes(a.1);
        let q = approval_bytes(b.1);
        assert(a.0@ + p + x =~= a.0@ + (p + x));
        assert(b.0@ + q + y =~= b.0@ + (q + y));
        lemma_hash(a.0, b.0, p + x, q + y);
        lemma_approval(a.1, b.1, x, y);
    }
}

/// Two candidate entries that begin the same bytes are laid out in the same way.
pub(crate) proof fn lemma_layout(a: Layout, b: Layout, x: Seq<u8>, y: Seq<u8>)
    requires
        a.storable(),
        b.storable(),
        layout_bytes(a) + x == layout_bytes(b) + y,
    ensures
        a == b,
        x == y,
{
    reveal(layout_bytes);
    let a3 = bits_bytes(a.approvals) + x;
    let a2 = list_bytes(a.pairs, approval_item()) + a3;
    let a1 = u32_bytes(a.session) + a2;
    let a0 = list_bytes(a.candidate, byte_item()) + a1;
    let b3 = bits_bytes(b.approvals) + y;
    let b2 = list_bytes(b.pairs, approval_item()) + b3;
    let b1 = u32_bytes(b.session) + b2;
    let b0 = list_bytes(b.candidate, byte_item()) + b1;
    assert(layout_bytes(a) + x =~= a0);
    assert(layout_bytes(b) + y =~= b0);
    lemma_byte_item();
    lemma_approval_item();
    lemma_list(a.candidate, b.candidate, byte_item(), any(), a1, b1);
    lemma_u32(a.session, b.session, a2, b2);
    assert(all_ok(a.pairs, approval_ok()));
    assert(all_ok(b.pairs, approval_ok()));
    lemma_list(a.pairs, b.pairs, approval_item(), approval_ok(), a3, b3);
    lemma_bits(a.approvals, b.approvals, x, y);
}

/// Two block entries that begin the same bytes are the same.
pub(crate) proof fn lemma_block(a: Block, b: Block, x: Seq<u8>, y: Seq<u8>)
    requires
        a.storable(),
        b.storable(),
        block_bytes(a) + x == block_bytes(b) + y,
    ensures
        a == b,
        x == y,
{
    reveal(block_bytes);
    let a6 = hashes_bytes(a.children) + x;
    let a5 = bits_bytes(a.approved_bitfield) + a6;
    let a4 = list_bytes(a.candidates, indexed_hash_item()) + a5;
    let a3 = a.relay_vrf_story@ + a4;
    let a2 = u64_bytes(a.slot) + a3;
    let a1 = u32_bytes(a.session) + a2;
    let a0 = a.block_hash@ + a1;
    let b6 = hashes_bytes(b.children) + y;
    let b5 = bits_bytes(b.approved_bitfield) + b6;
    let b4 = list_bytes(b.candidates, indexed_hash_item()) + b5;
    let b3 = b.relay_vrf_story@ + b4;
    let b2 = u64_bytes(b.slot) + b3;
    let b1 = u32_bytes(b.session) + b2;
    let b0 = b.block_hash@ + b1;
    let p = a.block_hash@ + u32_bytes(a.session);
    let q = b.block_hash@ + u32_bytes(b.session);
    lemma_regroup_6(
        p,
        u64_bytes(a.slot),
        a.relay_vrf_story@,
        list_bytes(a.candidates, indexed_hash_item()),
        bits_bytes(a.approved_bitfield),
        hashes_bytes(a.children),
        x,
    );
    lemma_regroup_6(
        q,
        u64_bytes(b.slot),
        b.relay_vrf_story@,
        list_bytes(b.candidates, indexed_hash_item()),
        bits_bytes(b.approved_bitfield),
        hashes_bytes(b.children),
        y,
    );
    assert(p + a2 =~= a0);
    assert(q + b2 =~= b0);
    assert(a0 == b0);
    lemma_hash(a.block_hash, b.block_hash, a1, b1);
    lemma_u32(a.session, b.session, a2, b2);
    lemma_u64(a.slot, b.slot, a3, b3);
    lemma_hash(a.relay_vrf_story, b.relay_vrf_story, a4, b4);
    lemma_indexed_hashes(a.candidates, b.candidates, a5, b5);
    lemma_bits(a.approved_bitfield, b.approved_bitfield, a6, b6);
    lemma_hashes(a.children, b.children, x, y);
}

/// Two lists of hashes that begin the same bytes are the same.
pub(crate) proof fn lemma_hashes(a: Seq<H256>, b: Seq<H256>, x: Seq<u8>, y: Seq<u8>)
    requires
        a.len() <= u32::MAX,
        b.len() <= u32::MAX,
        hashes_bytes(a) + x == hashes_bytes(b) + y,
    ensures
        a == b,
        x == y,
{
    reveal(hashes_bytes);
    lemma_hash_item();
    lemma_list(a, b, hash_item(), any(), x, y);
}

/// Two ranges that begin the same bytes are the same.
pub(crate) proof fn lemma_range(lo: u32, hi: u32, lo2: u32, hi2: u32, x: Seq<u8>, y: Seq<u8>)
    requires
        range_bytes(lo, hi) + x == range_bytes(lo2, hi2) + y,
    ensures
        lo == lo2,
        hi == hi2,
        x == y,
{
    reveal(range_bytes);
    assert(range_bytes(lo, hi) + x =~= u32_bytes(lo) + (u32_bytes(hi) + x));
    assert(range_bytes(lo2, hi2) + y =~= u32_bytes(lo2) + (u32_bytes(hi2) + y));
    lemma_u32(lo, lo2, u32_bytes(hi) + x, u32_bytes(hi2) + y);
    lemma_u32(hi, hi2, x, y);
}

} // verus!
