//! The coding scheme.  Products get the codes 1, 2, ...; actors get the
//! multiples of an offset that is larger than every product code, so that
//! the sum of an actor code and a product code, a stamp, tells both.
//! Names and codes, and stamps and rows of statistics, are paired in
//! `bimap` maps.

use bimap::BiHashMap;
use vstd::prelude::*;

verus! {

/// `bimap::BiHashMap`, as a value that is handed on unopened.
#[verifier::external_type_specification]
#[verifier::external_body]
#[verifier::reject_recursive_types(L)]
#[verifier::reject_recursive_types(R)]
#[verifier::reject_recursive_types(LS)]
#[verifier::reject_recursive_types(RS)]
pub struct ExBiHashMap<L, R, LS, RS>(BiHashMap<L, R, LS, RS>);

/// The pairs of a map of names and codes, as the code of each name.
pub uninterp spec fn code_pairs(map: BiHashMap<String, u16>) -> Map<Seq<char>, u16>;

/// The pairs of a map of stamps and rows, as the row of each stamp.
pub uninterp spec fn row_pairs(map: BiHashMap<u16, usize>) -> Map<u16, usize>;

/// The pairs left when `left` and `right` have been paired: the pairs that
/// held either of them are gone, the others stay.
pub open spec fn paired<L, R>(pairs: Map<L, R>, left: L, right: R) -> Map<L, R> {
    Map::new(
        |l: L| l == left || (pairs.contains_key(l) && pairs[l] != right),
        |l: L|
            if l == left {
                right
            } else {
                pairs[l]
            },
    )
}

/// The pairs are `n` in number.
pub open spec fn numbered<L, R>(pairs: Map<L, R>, n: nat) -> bool {
    pairs.dom().finite() && pairs.dom().len() == n
}

/// Calls `BiHashMap::new`: the result has no pair.
#[verifier::external_body]
pub(crate) fn new_code_map() -> (made: BiHashMap<String, u16>)
    ensures
        code_pairs(made).dom() == Set::<Seq<char>>::empty(),
{
    BiHashMap::new()
}

/// Calls `BiHashMap::insert`, which pairs `name` and `code` after it
/// removed the pair of that name and the pair of that code, if any.
#[verifier::external_body]
pub(crate) fn pair_code(map: &mut BiHashMap<String, u16>, name: String, code: u16)
    ensures
        code_pairs(*final(map)) == paired(code_pairs(*old(map)), name@, code),
{
    map.insert(name, code);
}

/// Calls `BiHashMap::get_by_left`: the code paired with `name`, if any.
#[verifier::external_body]
pub(crate) fn code_of(map: &BiHashMap<String, u16>, name: &String) -> (code: Option<u16>)
    ensures
        code == (if code_pairs(*map).contains_key(name@) {
            Some(code_pairs(*map)[name@])
        } else {
            None
        }),
{
    map.get_by_left(name).copied()
}

/// Calls `BiHashMap::get_by_right`: a name paired with `code`, if there is one.
#[verifier::external_body]
pub(crate) fn name_of(map: &BiHashMap<String, u16>, code: u16) -> (name: Option<String>)
    ensures
        match name {
            Some(name) => code_pairs(*map).contains_key(name@) && code_pairs(*map)[name@] == code,
            None => forall|other: Seq<char>|
                code_pairs(*map).contains_key(other) ==> code_pairs(*map)[other] != code,
        },
{
    map.get_by_right(&code).cloned()
}

/// Calls `BiHashMap::len`: the number of pairs.
#[verifier::external_body]
pub(crate) fn code_count(map: &BiHashMap<String, u16>) -> (n: usize)
    ensures
        numbered(code_pairs(*map), n as nat),
{
    map.len()
}

/// Calls `BiHashMap::new`: the result has no pair.
#[verifier::external_body]
pub(crate) fn new_row_map() -> (made: BiHashMap<u16, usize>)
    ensures
        row_pairs(made).dom() == Set::<u16>::empty(),
{
    BiHashMap::new()
}

/// Calls `BiHashMap::insert`, which pairs `stamp` and `row` after it
/// removed the pair of that stamp and the pair of that row, if any.
#[verifier::external_body]
pub(crate) fn pair_row(map: &mut BiHashMap<u16, usize>, stamp: u16, row: usize)
    ensures
        row_pairs(*final(map)) == paired(row_pairs(*old(map)), stamp, row),
{
    map.insert(stamp, row);
}

/// Calls `BiHashMap::get_by_left`: the row paired with `stamp`, if any.
#[verifier::external_body]
pub(crate) fn row_of(map: &BiHashMap<u16, usize>, stamp: u16) -> (row: Option<usize>)
    ensures
        row == (if row_pairs(*map).contains_key(stamp) {
            Some(row_pairs(*map)[stamp])
        } else {
            None
        }),
{
    map.get_by_left(&stamp).copied()
}

/// Calls `BiHashMap::len`: the number of pairs.
#[verifier::external_body]
pub(crate) fn row_count(map: &BiHashMap<u16, usize>) -> (n: usize)
    ensures
        numbered(row_pairs(*map), n as nat),
{
    map.len()
}

/// The smallest of `power`, ten times `power`, a hundred times `power`,
/// ... that is at least `n`.
pub open spec fn ten_fold_at_least(power: nat, n: nat) -> nat
    decreases
            (if power >= n {
                0
            } else {
                n - power
            }),
{
    if power == 0 || power >= n {
        power
    } else {
        ten_fold_at_least(10 * power, n)
    }
}

/// The offset between the codes of two actors where there are
/// `components` products: ten times the smallest power of ten that is at
/// least `components`.  Every product code, from 1 to `components`, is
/// smaller.
pub open spec fn offset_for(components: nat) -> nat {
    10 * ten_fold_at_least(1, components)
}

/// The product that a stamp tells, under `offset`.
pub open spec fn stamp_product(stamp: u16, offset: u16) -> u16 {
    (stamp % offset) as u16
}

/// The actor that a stamp tells, under `offset`.
pub open spec fn stamp_actor(stamp: u16, offset: u16) -> u16 {
    (stamp - stamp % offset) as u16
}

/// The offset is larger than any of `components` product codes.
pub proof fn lemma_offset_above(power: nat, components: nat)
    requires
        power >= 1,
    ensures
        ten_fold_at_least(power, components) >= components,
        ten_fold_at_least(power, components) >= power,
    decreases
            (if power >= components {
                0
            } else {
                components - power
            }),
{
    if power < components {
        lemma_offset_above(10 * power, components);
    }
}

/// A stamp tells the actor and the product it was made of: the sum of an
/// actor code, a multiple of the offset, and a product code below the
/// offset has that actor and that product.
pub proof fn lemma_stamp_reversible(actor: u16, product: u16, offset: u16)
    requires
        offset > 0,
        actor % offset == 0,
        product < offset,
        actor + product <= u16::MAX,
    ensures
        stamp_actor((actor + product) as u16, offset) == actor,
        stamp_product((actor + product) as u16, offset) == product,
{
    let k = actor as int / offset as int;
    vstd::arithmetic::div_mod::lemma_fundamental_div_mod(actor as int, offset as int);
    assert(actor as int == (offset as int) * k);
    vstd::arithmetic::div_mod::lemma_mod_multiples_vanish(
        k,
        product as int,
        offset as int,
    );
    vstd::arithmetic::div_mod::lemma_small_mod(product as nat, offset as nat);
    assert((offset as int) * k + product as int == actor + product);
    assert(k * (offset as int) == (offset as int) * k) by (nonlinear_arith);
}

/// The offset between the codes of two actors where there are
/// `components` products, if it is a code at all.
pub fn actor_offset(components: usize) -> (offset: Option<u16>)
    ensures
        match offset {
            Some(offset) => offset == offset_for(components as nat),
            None => offset_for(components as nat) > u16::MAX,
        },
{
    let mut power: u32 = 1;
    while power < 10_000 && (power as usize) < components
        invariant
            power == 1 || power == 10 || power == 100 || power == 1_000 || power == 10_000,
            ten_fold_at_least(power as nat, components as nat) == ten_fold_at_least(
                1,
                components as nat,
            ),
        decreases 10_000 - power,
    {
        power = power * 10;
    }
    if (power as usize) < components {
        proof {
            lemma_offset_above(power as nat, components as nat);
        }
        None
    } else if power >= 10_000 {
        None
    } else {
        Some((power * 10) as u16)
    }
}

/// The actor and the product that a stamp tells, under `offset`.
pub fn split_stamp(stamp: u16, offset: u16) -> (parts: (u16, u16))
    requires
        offset > 0,
    ensures
        parts == (stamp_actor(stamp, offset), stamp_product(stamp, offset)),
{
    let product = stamp % offset;
    proof {
        vstd::arithmetic::div_mod::lemma_mod_decreases(stamp as nat, offset as nat);
    }
    (stamp - product, product)
}

} // verus!
