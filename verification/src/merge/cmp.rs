//! Key orders. Merging is generic over the order of its keys.
//!
//! `InternalKeyComparator` orders by user key (bytewise, ascending), then by
//! sequence number and type (descending). The packed suffix is stored least
//! significant byte first and compared as a number, so this order is not the
//! bytewise order of the encoded keys.

use crate::format::internal_key::{
    is_internal_key, lemma_split_key, packed_part, user_part, NUM_INTERNAL_BYTES,
};
use std::cmp::Ordering;
use vstd::bytes::*;
use vstd::prelude::*;
use vstd::slice::slice_subrange;

verus! {

/// The number of leading bytes that `a` and `b` share.
pub open spec fn common_prefix_len(a: Seq<u8>, b: Seq<u8>) -> nat
    decreases a.len(),
{
    if a.len() == 0 || b.len() == 0 || a[0] != b[0] {
        0
    } else {
        1 + common_prefix_len(a.drop_first(), b.drop_first())
    }
}

/// Bytewise order: at the first difference the smaller byte comes first, and a
/// string comes before its extensions.
pub open spec fn bytes_before(a: Seq<u8>, b: Seq<u8>) -> bool {
    let n = common_prefix_len(a, b);
    n < b.len() && (n == a.len() || a[n as int] < b[n as int])
}

/// `n` leading bytes agree, and no more.
pub open spec fn agree_exactly(a: Seq<u8>, b: Seq<u8>, n: nat) -> bool {
    &&& n <= a.len()
    &&& n <= b.len()
    &&& forall|i: int| 0 <= i < n ==> a[i] == b[i]
    &&& n == a.len() || n == b.len() || a[n as int] != b[n as int]
}

pub proof fn lemma_common_prefix(a: Seq<u8>, b: Seq<u8>)
    ensures
        agree_exactly(a, b, common_prefix_len(a, b)),
    decreases a.len(),
{
    if a.len() > 0 && b.len() > 0 && a[0] == b[0] {
        lemma_common_prefix(a.drop_first(), b.drop_first());
        let n = common_prefix_len(a, b);
        assert forall|i: int| 0 <= i < n implies a[i] == b[i] by {
            if i > 0 {
                assert(a.drop_first()[i - 1] == b.drop_first()[i - 1]);
            }
        }
    }
}

pub proof fn lemma_common_prefix_is(a: Seq<u8>, b: Seq<u8>, n: nat)
    requires
        agree_exactly(a, b, n),
    ensures
        common_prefix_len(a, b) == n,
{
    lemma_common_prefix(a, b);
    let m = common_prefix_len(a, b);
    if m < n {
        assert(a[m as int] == b[m as int]);
    } else if n < m {
        assert(a[n as int] == b[n as int]);
    }
}

/// Bytewise order is a strict total order.
pub proof fn lemma_bytes_order(a: Seq<u8>, b: Seq<u8>, c: Seq<u8>)
    ensures
        !bytes_before(a, a),
        !(bytes_before(a, b) && bytes_before(b, a)),
        bytes_before(a, b) || bytes_before(b, a) || a == b,
        bytes_before(a, b) && bytes_before(b, c) ==> bytes_before(a, c),
{
    lemma_common_prefix(a, a);
    lemma_common_prefix(a, b);
    lemma_common_prefix(b, a);
    lemma_common_prefix(b, c);
    lemma_common_prefix(a, c);
    let m = common_prefix_len(a, b);
    lemma_common_prefix_is(b, a, m);
    if m == a.len() && m == b.len() {
        assert(a =~= b);
    }
    if bytes_before(a, b) && bytes_before(b, c) {
        let n = common_prefix_len(b, c);
        let k = if m < n { m } else { n };
        assert forall|i: int| 0 <= i < k implies a[i] == c[i] by {
            assert(a[i] == b[i] && b[i] == c[i]);
        }
        if m < n {
            assert(b[m as int] == c[m as int]);
        } else if n < m {
            assert(a[n as int] == b[n as int]);
        }
        lemma_common_prefix_is(a, c, k);
    }
}

/// A total order over encoded keys.
///
/// `before` is the order, on the keys that `comparable` admits. Keys of which
/// neither is before the other compare as equal.
pub trait KeyComparator {
    /// Whether `sort_prefix` may settle comparisons.
    const HAS_SORT_PREFIX: bool = false;

    spec fn comparable(key: Seq<u8>) -> bool;

    spec fn before(a: Seq<u8>, b: Seq<u8>) -> bool;

    spec fn prefix_of(key: Seq<u8>) -> u64;

    /// Neither of two keys is before the other both ways, and "not after" is
    /// transitive.
    proof fn order_laws(a: Seq<u8>, b: Seq<u8>, c: Seq<u8>)
        requires
            Self::comparable(a),
            Self::comparable(b),
            Self::comparable(c),
        ensures
            !(Self::before(a, b) && Self::before(b, a)),
            !Self::before(b, a) && !Self::before(c, b) ==> !Self::before(c, a),
    ;

    /// Unequal prefixes order the keys.
    proof fn prefix_law(a: Seq<u8>, b: Seq<u8>)
        requires
            Self::comparable(a),
            Self::comparable(b),
        ensures
            Self::prefix_of(a) < Self::prefix_of(b) ==> Self::before(a, b),
    ;

    fn compare(a: &[u8], b: &[u8]) -> (r: Ordering)
        requires
            Self::comparable(a@),
            Self::comparable(b@),
        ensures
            r == Ordering::Less <==> Self::before(a@, b@),
            r == Ordering::Greater <==> Self::before(b@, a@),
            r == Ordering::Equal <==> !Self::before(a@, b@) && !Self::before(b@, a@),
    ;

    /// A number taken from the leading bytes of `key`.
    fn sort_prefix(key: &[u8]) -> (r: u64)
        ensures
            r == Self::prefix_of(key@),
    ;
}

/// An order that is the bytewise order of the encoded keys.
pub trait ByteComparable: KeyComparator {
    proof fn orders_bytewise(a: Seq<u8>, b: Seq<u8>)
        ensures
            Self::before(a, b) == bytes_before(a, b),
    ;
}

/// The first `n` bytes of `key`, zero where the key has ended, read as a
/// number with the first byte most significant.
pub open spec fn leading_value(key: Seq<u8>, n: nat) -> nat
    decreases n,
{
    if n == 0 {
        0
    } else {
        256 * leading_value(key, (n - 1) as nat) + padded_byte(key, n - 1)
    }
}

pub open spec fn padded_byte(key: Seq<u8>, i: int) -> nat {
    if 0 <= i < key.len() {
        key[i] as nat
    } else {
        0
    }
}

pub open spec fn pow256(n: nat) -> nat
    decreases n,
{
    if n == 0 {
        1
    } else {
        256 * pow256((n - 1) as nat)
    }
}

proof fn lemma_leading_value_bound(key: Seq<u8>, n: nat)
    ensures
        leading_value(key, n) < pow256(n),
    decreases n,
{
    if n > 0 {
        lemma_leading_value_bound(key, (n - 1) as nat);
    }
}

proof fn lemma_pow256_8()
    ensures
        pow256(8) == 0x1_0000_0000_0000_0000,
{
    reveal_with_fuel(pow256, 9);
}

/// A smaller leading value means a smaller byte at the first difference.
proof fn lemma_leading_value_orders(a: Seq<u8>, b: Seq<u8>, n: nat) -> (at: int)
    requires
        leading_value(a, n) < leading_value(b, n),
    ensures
        0 <= at < n,
        padded_byte(a, at) < padded_byte(b, at),
        forall|i: int| 0 <= i < at ==> padded_byte(a, i) == padded_byte(b, i),
    decreases n,
{
    let m = (n - 1) as nat;
    if leading_value(a, m) < leading_value(b, m) {
        lemma_leading_value_orders(a, b, m)
    } else {
        lemma_leading_value_equal(a, b, m);
        m as int
    }
}

proof fn lemma_leading_value_equal(a: Seq<u8>, b: Seq<u8>, n: nat)
    requires
        leading_value(a, n) >= leading_value(b, n),
        leading_value(a, n) <= leading_value(b, n),
    ensures
        forall|i: int| 0 <= i < n ==> padded_byte(a, i) == padded_byte(b, i),
    decreases n,
{
    if n > 0 {
        lemma_leading_value_equal(a, b, (n - 1) as nat);
    }
}

/// Unequal eight-byte prefixes order two byte strings as the whole strings
/// are ordered.
pub proof fn lemma_prefix_orders_bytes(a: Seq<u8>, b: Seq<u8>)
    requires
        leading_value(a, 8) < leading_value(b, 8),
    ensures
        bytes_before(a, b),
{
    let at = lemma_leading_value_orders(a, b, 8);
    assert(at < b.len());
    let n = if at < a.len() { at as nat } else { a.len() };
    assert forall|i: int| 0 <= i < n implies a[i] == b[i] by {
        assert(padded_byte(a, i) == padded_byte(b, i));
    }
    lemma_common_prefix_is(a, b, n);
}

/// The first eight bytes of `key` as a big-endian number, zero padded.
pub fn load_be_prefix(key: &[u8]) -> (r: u64)
    ensures
        r == leading_value(key@, 8),
{
    let mut value: u64 = 0;
    let mut i: usize = 0;
    while i < 8
        invariant
            i <= 8,
            value == leading_value(key@, i as nat),
        decreases 8 - i,
    {
        proof {
            lemma_leading_value_bound(key@, i as nat);
            reveal_with_fuel(pow256, 9);
        }
        let byte: u64 = if i < key.len() {
            key[i] as u64
        } else {
            0
        };
        value = value * 256 + byte;
        i = i + 1;
    }
    value
}

/// The number of leading bytes that two byte strings share.
pub fn shared_prefix_len(a: &[u8], b: &[u8]) -> (r: usize)
    ensures
        r == common_prefix_len(a@, b@),
        r <= a@.len(),
        r <= b@.len(),
{
    let mut n: usize = 0;
    while n < a.len() && n < b.len() && a[n] == b[n]
        invariant
            n <= a.len(),
            n <= b.len(),
            forall|i: int| 0 <= i < n ==> a@[i] == b@[i],
        decreases a.len() - n,
    {
        n = n + 1;
    }
    proof {
        lemma_common_prefix_is(a@, b@, n as nat);
    }
    n
}

/// Whether `a` comes before `b` bytewise.
pub fn sorts_before(a: &[u8], b: &[u8]) -> (r: bool)
    ensures
        r == bytes_before(a@, b@),
{
    proof {
        lemma_bytes_order(a@, b@, a@);
    }
    match compare_bytes(a, b) {
        Ordering::Less => true,
        _ => false,
    }
}

/// Compares two byte strings bytewise.
pub fn compare_bytes(a: &[u8], b: &[u8]) -> (r: Ordering)
    ensures
        r == Ordering::Less <==> bytes_before(a@, b@),
        r == Ordering::Greater <==> bytes_before(b@, a@),
        r == Ordering::Equal <==> a@ == b@,
{
    let n: usize = shared_prefix_len(a, b);
    proof {
        lemma_common_prefix(a@, b@);
        lemma_common_prefix_is(b@, a@, common_prefix_len(a@, b@));
        lemma_bytes_order(a@, b@, b@);
        lemma_bytes_order(b@, a@, a@);
    }
    if n == b.len() {
        if n == a.len() {
            assert(a@ =~= b@);
            Ordering::Equal
        } else {
            Ordering::Greater
        }
    } else if n == a.len() {
        Ordering::Less
    } else if a[n] < b[n] {
        Ordering::Less
    } else {
        Ordering::Greater
    }
}

/// Order of internal keys: user key ascending, then newest first.
pub open spec fn internal_before(a: Seq<u8>, b: Seq<u8>) -> bool {
    ||| bytes_before(user_part(a), user_part(b))
    ||| user_part(a) == user_part(b) && packed_part(a) > packed_part(b)
}

/// The order of internal keys is a strict total order: two keys of which
/// neither is before the other are the same bytes.
pub proof fn lemma_internal_order(a: Seq<u8>, b: Seq<u8>, c: Seq<u8>)
    requires
        is_internal_key(a),
        is_internal_key(b),
        is_internal_key(c),
    ensures
        !internal_before(a, a),
        !(internal_before(a, b) && internal_before(b, a)),
        internal_before(a, b) || internal_before(b, a) || a == b,
        internal_before(a, b) && internal_before(b, c) ==> internal_before(a, c),
{
    lemma_bytes_order(user_part(a), user_part(b), user_part(c));
    lemma_bytes_order(user_part(b), user_part(a), user_part(c));
    lemma_split_key(a);
    lemma_split_key(b);
}

/// Newer versions of one user key come first.
pub struct InternalKeyComparator;

impl KeyComparator for InternalKeyComparator {
    open spec fn comparable(key: Seq<u8>) -> bool {
        is_internal_key(key)
    }

    open spec fn before(a: Seq<u8>, b: Seq<u8>) -> bool {
        internal_before(a, b)
    }

    open spec fn prefix_of(key: Seq<u8>) -> u64 {
        0
    }

    proof fn order_laws(a: Seq<u8>, b: Seq<u8>, c: Seq<u8>) {
        lemma_internal_order(a, b, c);
        lemma_internal_order(c, b, a);
        lemma_internal_order(c, a, b);
        lemma_internal_order(b, c, a);
    }

    proof fn prefix_law(a: Seq<u8>, b: Seq<u8>) {
    }

    fn compare(a: &[u8], b: &[u8]) -> (r: Ordering) {
        proof {
            lemma_bytes_order(user_part(a@), user_part(b@), user_part(b@));
        }
        match compare_bytes(user_key(a), user_key(b)) {
            Ordering::Equal => {
                let a_packed: u64 = packed_suffix(a);
                let b_packed: u64 = packed_suffix(b);
                if b_packed < a_packed {
                    Ordering::Less
                } else if a_packed < b_packed {
                    Ordering::Greater
                } else {
                    Ordering::Equal
                }
            },
            other => other,
        }
    }

    /// The suffix is not compared bytewise, so no prefix is offered.
    fn sort_prefix(key: &[u8]) -> (r: u64) {
        0
    }
}

/// Plain bytewise order.
pub struct BytewiseComparator;

impl KeyComparator for BytewiseComparator {
    open spec fn comparable(key: Seq<u8>) -> bool {
        true
    }

    open spec fn before(a: Seq<u8>, b: Seq<u8>) -> bool {
        bytes_before(a, b)
    }

    open spec fn prefix_of(key: Seq<u8>) -> u64 {
        leading_value(key, 8) as u64
    }

    proof fn order_laws(a: Seq<u8>, b: Seq<u8>, c: Seq<u8>) {
        lemma_bytes_order(a, b, c);
        lemma_bytes_order(c, b, a);
        lemma_bytes_order(c, a, b);
        lemma_bytes_order(b, c, a);
    }

    proof fn prefix_law(a: Seq<u8>, b: Seq<u8>) {
        lemma_leading_value_bound(a, 8);
        lemma_leading_value_bound(b, 8);
        lemma_pow256_8();
        if Self::prefix_of(a) < Self::prefix_of(b) {
            lemma_prefix_orders_bytes(a, b);
        }
    }

    fn compare(a: &[u8], b: &[u8]) -> (r: Ordering) {
        proof {
            lemma_bytes_order(a@, b@, b@);
        }
        compare_bytes(a, b)
    }

    fn sort_prefix(key: &[u8]) -> (r: u64) {
        load_be_prefix(key)
    }
}

impl ByteComparable for BytewiseComparator {
    proof fn orders_bytewise(a: Seq<u8>, b: Seq<u8>) {
    }
}

/// The user key of an internal key.
pub fn user_key(internal_key: &[u8]) -> (r: &[u8])
    requires
        is_internal_key(internal_key@),
    ensures
        r@ == user_part(internal_key@),
{
    let r = slice_subrange(internal_key, 0, internal_key.len() - NUM_INTERNAL_BYTES);
    assert(r@ =~= user_part(internal_key@));
    r
}

/// The packed sequence number and type of an internal key.
pub fn packed_suffix(internal_key: &[u8]) -> (r: u64)
    requires
        is_internal_key(internal_key@),
    ensures
        r == packed_part(internal_key@),
{
    let n: usize = internal_key.len();
    let suffix = slice_subrange(internal_key, n - NUM_INTERNAL_BYTES, n);
    assert(suffix@ =~= internal_key@.skip(n - NUM_INTERNAL_BYTES));
    u64_from_le_bytes(suffix)
}

/// Compares two internal keys.
pub fn compare_internal_keys(a: &[u8], b: &[u8]) -> (r: Ordering)
    requires
        is_internal_key(a@),
        is_internal_key(b@),
    ensures
        r == Ordering::Less <==> internal_before(a@, b@),
        r == Ordering::Greater <==> internal_before(b@, a@),
        r == Ordering::Equal <==> a@ == b@,
{
    proof {
        lemma_internal_order(a@, b@, b@);
    }
    InternalKeyComparator::compare(a, b)
}

/// Compares the user keys of two internal keys and nothing else.
pub fn compare_user_keys(a: &[u8], b: &[u8]) -> (r: Ordering)
    requires
        is_internal_key(a@),
        is_internal_key(b@),
    ensures
        r == Ordering::Less <==> bytes_before(user_part(a@), user_part(b@)),
        r == Ordering::Greater <==> bytes_before(user_part(b@), user_part(a@)),
        r == Ordering::Equal <==> user_part(a@) == user_part(b@),
{
    compare_bytes(user_key(a), user_key(b))
}

/// Whether the user key of `a` comes before the user key of `b`.
pub fn user_key_before(a: &[u8], b: &[u8]) -> (r: bool)
    requires
        is_internal_key(a@),
        is_internal_key(b@),
    ensures
        r == bytes_before(user_part(a@), user_part(b@)),
{
    match compare_user_keys(a, b) {
        Ordering::Less => true,
        _ => false,
    }
}

} // verus!
