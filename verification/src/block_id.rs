//! Block identifiers.
//!
//! An identifier is a byte string. The root block is `0`. A cut gives the
//! children of block `X` the names `X.0`, `X.1`, ... and a merge gives the
//! new block the next unused number, written in decimal.

use vstd::prelude::*;

verus! {

/// The byte `.`, which parts a block's name from its child index.
pub const DOT: u8 = 46;

/// The byte `0`.
pub const DIGIT_ZERO: u8 = 48;

/// The identifier of the root block: the one byte `0`.
pub open spec fn root_id() -> Seq<u8> {
    seq![DIGIT_ZERO]
}

/// The identifier of child `k` of block `id`: `id`, a dot and the digit `k`.
pub open spec fn child_of(id: Seq<u8>, k: int) -> Seq<u8> {
    id.push(DOT).push((DIGIT_ZERO + k) as u8)
}

/// The number `n` in decimal, without leading zeros.
pub open spec fn decimal(n: nat) -> Seq<u8>
    decreases n,
{
    if n < 10 {
        seq![(DIGIT_ZERO + n) as u8]
    } else {
        decimal(n / 10).push((DIGIT_ZERO + n % 10) as u8)
    }
}

/// Whether `id` names a block below `ancestor`: it is `ancestor`, a dot and
/// something more.
pub open spec fn descends_from(id: Seq<u8>, ancestor: Seq<u8>) -> bool {
    &&& id.len() > ancestor.len()
    &&& id.subrange(0, ancestor.len() as int) == ancestor
    &&& id[ancestor.len() as int] == DOT
}

/// The identifier of the root block.
pub fn get_start_id() -> (id: Vec<u8>)
    ensures
        id@ == root_id(),
{
    let mut id: Vec<u8> = Vec::new();
    id.push(DIGIT_ZERO);
    assert(id@ =~= root_id());
    id
}

/// A copy of `id`.
pub fn copy_id(id: &Vec<u8>) -> (copy: Vec<u8>)
    ensures
        copy@ == id@,
{
    let mut copy: Vec<u8> = Vec::new();
    let mut i: usize = 0;
    while i < id.len()
        invariant
            i <= id.len(),
            copy@ == id@.subrange(0, i as int),
        decreases id.len() - i,
    {
        copy.push(id[i]);
        i += 1;
        assert(copy@ =~= id@.subrange(0, i as int));
    }
    assert(id@.subrange(0, i as int) =~= id@);
    copy
}

/// Whether the two identifiers are the same byte string.
pub fn same_id(a: &Vec<u8>, b: &Vec<u8>) -> (same: bool)
    ensures
        same == (a@ == b@),
{
    if a.len() != b.len() {
        return false;
    }
    let mut i: usize = 0;
    while i < a.len()
        invariant
            i <= a.len(),
            a.len() == b.len(),
            forall|k: int| 0 <= k < i ==> a@[k] == b@[k],
        decreases a.len() - i,
    {
        if a[i] != b[i] {
            return false;
        }
        i += 1;
    }
    assert(a@ =~= b@);
    true
}

/// The identifier of child `sub_id` of block `id`: `id`, a dot, and the
/// byte that stands `sub_id` places after `0`, which is the digit `sub_id`
/// for the children of a cut.
pub fn child_id(id: &Vec<u8>, sub_id: u8) -> (child: Vec<u8>)
    requires
        DIGIT_ZERO + sub_id <= u8::MAX,
    ensures
        child@ == child_of(id@, sub_id as int),
{
    let mut child: Vec<u8> = copy_id(id);
    child.push(DOT);
    child.push(DIGIT_ZERO + sub_id);
    child
}

/// The identifier that a merge gives to the block with number `n`.
pub fn minted_id(n: u64) -> (id: Vec<u8>)
    ensures
        id@ == decimal(n as nat),
    decreases n,
{
    if n < 10 {
        let mut id: Vec<u8> = Vec::new();
        id.push(DIGIT_ZERO + n as u8);
        assert(id@ =~= decimal(n as nat));
        id
    } else {
        let mut id: Vec<u8> = minted_id(n / 10);
        id.push(DIGIT_ZERO + (n % 10) as u8);
        id
    }
}

/// A decimal numeral is not empty and holds digits only: no dot.
pub proof fn lemma_decimal_digits(n: nat)
    ensures
        decimal(n).len() >= 1,
        n >= 10 ==> decimal(n).len() >= 2,
        forall|k: int| 0 <= k < decimal(n).len() ==> DIGIT_ZERO <= #[trigger] decimal(n)[k] <= 57,
    decreases n,
{
    if n >= 10 {
        lemma_decimal_digits(n / 10);
    }
}

/// Different numbers have different decimal numerals.
pub proof fn lemma_decimal_injective(m: nat, n: nat)
    requires
        decimal(m) == decimal(n),
    ensures
        m == n,
    decreases m,
{
    lemma_decimal_digits(m);
    lemma_decimal_digits(n);
    if m < 10 || n < 10 {
        assert(decimal(m).len() == 1 || decimal(n).len() == 1);
        assert(m < 10 && n < 10);
        assert(decimal(m)[0] == (DIGIT_ZERO + m) as u8);
        assert(decimal(n)[0] == (DIGIT_ZERO + n) as u8);
    } else {
        let dm = decimal(m / 10);
        let dn = decimal(n / 10);
        assert(decimal(m).last() == (DIGIT_ZERO + m % 10) as u8);
        assert(decimal(n).last() == (DIGIT_ZERO + n % 10) as u8);
        assert(dm =~= decimal(m).drop_last());
        assert(dn =~= decimal(n).drop_last());
        lemma_decimal_injective(m / 10, n / 10);
        assert(m % 10 == n % 10);
        assert(m == 10 * (m / 10) + m % 10);
        assert(n == 10 * (n / 10) + n % 10);
    }
}

/// A decimal numeral names no child: it descends from nothing.
pub proof fn lemma_decimal_is_top_level(n: nat, ancestor: Seq<u8>)
    ensures
        !descends_from(decimal(n), ancestor),
{
    lemma_decimal_digits(n);
}

/// A child's name descends from its parent's, differs from every numeral,
/// and whatever it descends from is the parent or an ancestor of the parent.
pub proof fn lemma_child_names(id: Seq<u8>, k: int, other: Seq<u8>, n: nat)
    requires
        0 <= k < 10,
    ensures
        descends_from(child_of(id, k), id),
        child_of(id, k) != decimal(n),
        descends_from(child_of(id, k), other) ==> other == id || descends_from(id, other),
        descends_from(other, child_of(id, k)) ==> descends_from(other, id),
        child_of(id, k) == other ==> descends_from(other, id),
{
    let c = child_of(id, k);
    assert(c.len() == id.len() + 2);
    assert(c.subrange(0, id.len() as int) =~= id);
    assert(c[id.len() as int] == DOT);
    lemma_decimal_digits(n);
    if c == decimal(n) {
        assert(decimal(n)[id.len() as int] == DOT);
    }
    if descends_from(c, other) {
        if other.len() < id.len() {
            assert(id.subrange(0, other.len() as int) =~= c.subrange(0, other.len() as int));
            assert(id[other.len() as int] == c[other.len() as int]);
        } else if other.len() == id.len() {
            assert(other =~= id);
        } else {
            assert(c[other.len() as int] == (DIGIT_ZERO + k) as u8);
        }
    }
    if descends_from(other, c) {
        assert(other.subrange(0, id.len() as int) =~= c.subrange(0, id.len() as int));
        assert(other[id.len() as int] == other.subrange(0, c.len() as int)[id.len() as int]);
    }
}

/// Two children of one block have the same name only if they have the same
/// index, and neither descends from the other.
pub proof fn lemma_siblings(id: Seq<u8>, j: int, k: int)
    requires
        0 <= j < 10,
        0 <= k < 10,
    ensures
        child_of(id, j) == child_of(id, k) ==> j == k,
        !descends_from(child_of(id, j), child_of(id, k)),
{
    if child_of(id, j) == child_of(id, k) {
        assert(child_of(id, j)[id.len() as int + 1] == child_of(id, k)[id.len() as int + 1]);
    }
}

} // verus!
