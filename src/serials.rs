//! The two-way index between atom serial numbers and node indices.
use vstd::prelude::*;
use bimap::BiHashMap;

verus! {

#[verifier::external_type_specification]
#[verifier::external_body]
#[verifier::reject_recursive_types(L)]
#[verifier::reject_recursive_types(R)]
#[verifier::reject_recursive_types(LS)]
#[verifier::reject_recursive_types(RS)]
pub struct ExBiHashMap<L, R, LS, RS>(BiHashMap<L, R, LS, RS>);

/// The pairs of a two-way map, by their left value.
pub uninterp spec fn serial_pairs(m: BiHashMap<usize, usize>) -> Map<usize, usize>;

pub open spec fn no_pairs() -> Map<usize, usize> {
    Map::empty()
}

/// Relies on `BiHashMap::new`: an empty map.
#[verifier::external_body]
pub fn new_index() -> (r: BiHashMap<usize, usize>)
    ensures
        serial_pairs(r) == no_pairs(),
{
    BiHashMap::new()
}

/// Relies on `BiHashMap::get_by_left`: the right value paired with `l`.
#[verifier::external_body]
pub fn right_of(m: &BiHashMap<usize, usize>, l: usize) -> (r: Option<usize>)
    ensures
        r == (if serial_pairs(*m).contains_key(l) { Some(serial_pairs(*m)[l]) } else { None }),
{
    m.get_by_left(&l).copied()
}

/// Relies on `BiHashMap::get_by_right`: the left value paired with `x`.
#[verifier::external_body]
pub fn left_of(m: &BiHashMap<usize, usize>, x: usize) -> (r: Option<usize>)
    ensures
        r matches Some(l) ==> serial_pairs(*m).contains_key(l) && serial_pairs(*m)[l] == x,
        r is None ==> forall|l: usize| #[trigger] serial_pairs(*m).contains_key(l) ==> serial_pairs(*m)[l] != x,
{
    m.get_by_right(&x).copied()
}

/// Relies on `BiHashMap::insert_no_overwrite`: the pair goes in unless either
/// of its values is already paired, in which case nothing changes.
#[verifier::external_body]
pub fn insert_new(m: &mut BiHashMap<usize, usize>, l: usize, x: usize) -> (r: bool)
    ensures
        r == (!serial_pairs(*old(m)).contains_key(l)
            && forall|k: usize| #[trigger] serial_pairs(*old(m)).contains_key(k) ==> serial_pairs(*old(m))[k] != x),
        r ==> serial_pairs(*final(m)) == serial_pairs(*old(m)).insert(l, x),
        !r ==> serial_pairs(*final(m)) == serial_pairs(*old(m)),
{
    m.insert_no_overwrite(l, x).is_ok()
}

/// Relies on `BiHashMap::remove_by_left`: the pair of `l` goes, and its right
/// value comes back.
#[verifier::external_body]
pub fn remove_left(m: &mut BiHashMap<usize, usize>, l: usize) -> (r: Option<usize>)
    ensures
        r == (if serial_pairs(*old(m)).contains_key(l) { Some(serial_pairs(*old(m))[l]) } else { None }),
        serial_pairs(*final(m)) == serial_pairs(*old(m)).remove(l),
{
    m.remove_by_left(&l).map(|p| p.1)
}

/// Relies on `BiHashMap::clear`: no pair stays.
#[verifier::external_body]
pub fn clear_index(m: &mut BiHashMap<usize, usize>)
    ensures
        serial_pairs(*final(m)) == no_pairs(),
{
    m.clear()
}

/// Relies on `BiHashMap::left_values`: each left value once, in no set order.
#[verifier::external_body]
pub fn left_values(m: &BiHashMap<usize, usize>) -> (r: Vec<usize>)
    ensures
        r@.no_duplicates(),
        forall|l: usize| r@.contains(l) <==> serial_pairs(*m).contains_key(l),
{
    m.left_values().copied().collect()
}

} // verus!
