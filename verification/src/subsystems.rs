//! The subsystems a tree listens to, kept in a frozen string set.

use vstd::prelude::*;
use std::hash::RandomState;
use frozen_collections::FzStringSet;
use crate::device::opt_view;
use crate::xml::strings_view;

verus! {

#[verifier::external_type_specification]
#[verifier::external_body]
#[verifier::reject_recursive_types(T)]
#[verifier::reject_recursive_types(BH)]
pub struct ExFzStringSet<T, BH>(FzStringSet<T, BH>);

/// The subsystem names that a frozen set holds.
pub uninterp spec fn subsystem_names(s: FzStringSet<Box<str>, RandomState>) -> Set<Seq<char>>;

/// Calls `FzStringSet::with_hasher`: the set of the given names.
#[verifier::external_body]
pub(crate) fn subsystem_set(names: Vec<String>) -> (r: FzStringSet<Box<str>, RandomState>)
    ensures
        subsystem_names(r) == strings_view(names@).to_set(),
{
    FzStringSet::with_hasher(names, RandomState::new())
}

/// Calls `FzStringSet::is_empty`: whether the set holds no name.
#[verifier::external_body]
pub(crate) fn subsystem_set_is_empty(s: &FzStringSet<Box<str>, RandomState>) -> (r: bool)
    ensures
        r == (subsystem_names(*s) == Set::<Seq<char>>::empty()),
{
    s.is_empty()
}

/// Calls `FzStringSet::contains`: whether the set holds the name.
#[verifier::external_body]
pub(crate) fn subsystem_set_contains(s: &FzStringSet<Box<str>, RandomState>, name: &str) -> (r: bool)
    ensures
        r == subsystem_names(*s).contains(name@),
{
    s.contains(name)
}

/// Calls `FzStringSet::iter`: every name of the set once, in the set's
/// own order.
#[verifier::external_body]
fn subsystem_set_names(s: &FzStringSet<Box<str>, RandomState>) -> (r: Vec<String>)
    ensures
        strings_view(r@).to_set() == subsystem_names(*s),
        strings_view(r@).no_duplicates(),
{
    s.iter().map(|n| n.to_string()).collect()
}

/// A device is managed when the tree listens to every subsystem, or to its
/// subsystem.
pub open spec fn managed(subs: Set<Seq<char>>, sub: Option<Seq<char>>) -> bool {
    subs == Set::<Seq<char>>::empty() || (sub is Some && subs.contains(sub.unwrap()))
}

/// The subsystem filters of a list of monitors or device scans.
pub open spec fn filter_view(v: Seq<Option<String>>) -> Seq<Option<Seq<char>>> {
    v.map_values(|o: Option<String>| opt_view(o))
}

/// The subsystem filter of each monitor and device scan: one without
/// filter when every subsystem is listened to, one per subsystem otherwise.
pub(crate) fn listen_filters(subsystems: &FzStringSet<Box<str>, RandomState>) -> (r: Vec<Option<String>>)
    ensures
        subsystem_names(*subsystems) == Set::<Seq<char>>::empty() ==> filter_view(r@) == seq![None::<Seq<char>>],
        subsystem_names(*subsystems) != Set::<Seq<char>>::empty() ==> {
            &&& filter_view(r@).no_duplicates()
            &&& forall|o: Option<Seq<char>>| #[trigger] filter_view(r@).contains(o) <==> (o is Some && subsystem_names(
                *subsystems,
            ).contains(o.unwrap()))
        },
{
    let mut r: Vec<Option<String>> = Vec::new();
    if subsystem_set_is_empty(subsystems) {
        r.push(None);
        proof {
            assert(filter_view(r@) =~= seq![None::<Seq<char>>]);
        }
        return r;
    }
    let names = subsystem_set_names(subsystems);
    let ghost nv = strings_view(names@);
    let mut i: usize = 0;
    while i < names.len()
        invariant
            nv == strings_view(names@),
            nv.no_duplicates(),
            i <= names.len(),
            filter_view(r@) == nv.take(i as int).map_values(|x: Seq<char>| Some(x)),
        decreases names.len() - i,
    {
        let ghost before = r@;
        let c = names[i].clone();
        proof {
            assert(c@ == nv[i as int]);
        }
        r.push(Some(c));
        proof {
            assert(r@ == before.push(Some(c)));
            assert(filter_view(r@) =~= filter_view(before).push(Some(c@)));
            assert(nv.take(i + 1) =~= nv.take(i as int).push(nv[i as int]));
            assert(filter_view(r@) =~= nv.take(i + 1).map_values(|x: Seq<char>| Some(x)));
        }
        i = i + 1;
    }
    proof {
        let fv = filter_view(r@);
        assert(nv.take(names.len() as int) =~= nv);
        assert(fv =~= nv.map_values(|x: Seq<char>| Some(x)));
        assert forall|a: int, b: int| 0 <= a < fv.len() && 0 <= b < fv.len() && a != b implies fv[a] != fv[b] by {
            assert(fv[a] == Some(nv[a]));
            assert(fv[b] == Some(nv[b]));
        }
        assert forall|o: Option<Seq<char>>| #[trigger] fv.contains(o) <==> (o is Some && subsystem_names(*subsystems).contains(
            o.unwrap(),
        )) by {
            if fv.contains(o) {
                let j = choose|j: int| 0 <= j < fv.len() && fv[j] == o;
                assert(nv.contains(nv[j]));
            }
            if o is Some && subsystem_names(*subsystems).contains(o.unwrap()) {
                assert(nv.to_set().contains(o.unwrap()));
                let j = choose|j: int| 0 <= j < nv.len() && nv[j] == o.unwrap();
                assert(fv[j] == o);
            }
        }
    }
    r
}

} // verus!
