use std::collections::HashMap;
use vstd::prelude::*;
use crate::error::EcsError;

verus! {

broadcast use vstd::std_specs::hash::group_hash_axioms;

/// Relies on `HashMap::get_mut`: a mutable reference to the value under `key`
/// if there is one, through which the map's entry is changed in place.
#[verifier::external_body]
fn value_mut<T>(m: &mut HashMap<u64, T>, key: u64) -> (r: Option<&mut T>)
    ensures
        r.is_some() == old(m)@.contains_key(key),
        match r {
            Some(v) => *v == old(m)@[key] && final(m)@ == old(m)@.insert(key, *final(v)),
            None => final(m)@ == old(m)@,
        },
{
    m.get_mut(&key)
}

/// Resources of one type, each under a 64-bit key (most often the hash of
/// the resource's source).
pub struct RscManager<T> {
    rsc_list: HashMap<u64, T>,
}

impl<T> RscManager<T> {
    /// The resources, by key.
    pub closed spec fn resources(&self) -> Map<u64, T> {
        self.rsc_list@
    }

    pub fn new() -> (r: RscManager<T>)
        ensures
            r.resources() == Map::<u64, T>::empty(),
    {
        RscManager { rsc_list: HashMap::new() }
    }

    /// Stores `value` under `hash`; fails if the key is taken.
    pub fn add(&mut self, hash: u64, value: T) -> (r: Result<(), EcsError>)
        ensures
            old(self).resources().contains_key(hash) ==> r == Err::<(), EcsError>(
                EcsError::AlreadyExists,
            ) && final(self).resources() == old(self).resources(),
            !old(self).resources().contains_key(hash) ==> r == Ok::<(), EcsError>(())
                && final(self).resources() == old(self).resources().insert(hash, value),
    {
        if self.does_exist(hash) {
            return Err(EcsError::AlreadyExists);
        }
        self.rsc_list.insert(hash, value);
        Ok(())
    }

    /// Drops the resource under `hash`; fails if there is none.
    pub fn remove(&mut self, hash: u64) -> (r: Result<(), EcsError>)
        ensures
            !old(self).resources().contains_key(hash) ==> r == Err::<(), EcsError>(
                EcsError::NotFound,
            ) && final(self).resources() == old(self).resources(),
            old(self).resources().contains_key(hash) ==> r == Ok::<(), EcsError>(())
                && final(self).resources() == old(self).resources().remove(hash),
    {
        if !self.does_exist(hash) {
            return Err(EcsError::NotFound);
        }
        self.rsc_list.remove(&hash);
        Ok(())
    }

    /// Moves the resource under `old_hash` to the key `new_hash`; fails if
    /// `old_hash` holds nothing or `new_hash` is taken.
    pub fn change_hash(&mut self, old_hash: u64, new_hash: u64) -> (r: Result<(), EcsError>)
        ensures
            !old(self).resources().contains_key(old_hash) ==> r == Err::<(), EcsError>(
                EcsError::NotFound,
            ) && final(self).resources() == old(self).resources(),
            old(self).resources().contains_key(old_hash)
                && old(self).resources().contains_key(new_hash) ==> r == Err::<(), EcsError>(
                EcsError::AlreadyExists,
            ) && final(self).resources() == old(self).resources(),
            old(self).resources().contains_key(old_hash)
                && !old(self).resources().contains_key(new_hash) ==> r == Ok::<(), EcsError>(())
                && final(self).resources() == old(self).resources().remove(old_hash).insert(
                new_hash,
                old(self).resources()[old_hash],
            ),
    {
        if !self.does_exist(old_hash) {
            return Err(EcsError::NotFound);
        }
        if self.does_exist(new_hash) {
            return Err(EcsError::AlreadyExists);
        }
        match self.rsc_list.remove(&old_hash) {
            Some(value) => {
                self.rsc_list.insert(new_hash, value);
                Ok(())
            },
            None => Err(EcsError::NotFound),
        }
    }

    /// Drops every resource.
    pub fn clear(&mut self)
        ensures
            final(self).resources() == Map::<u64, T>::empty(),
    {
        self.rsc_list = HashMap::new();
    }

    /// Whether a resource is stored under `hash`.
    pub fn does_exist(&self, hash: u64) -> (r: bool)
        ensures
            r == self.resources().contains_key(hash),
    {
        self.rsc_list.contains_key(&hash)
    }

    /// The resource under `hash`, if any.
    pub fn get(&self, hash: u64) -> (r: Option<&T>)
        ensures
            r.is_some() == self.resources().contains_key(hash),
            r.is_some() ==> *r.unwrap() == self.resources()[hash],
    {
        self.rsc_list.get(&hash)
    }

    /// The resource under `hash`, if any, to be changed in place.
    pub fn get_mut(&mut self, hash: u64) -> (r: Option<&mut T>)
        ensures
            r.is_some() == old(self).resources().contains_key(hash),
            match r {
                Some(v) => *v == old(self).resources()[hash]
                    && final(self).resources() == old(self).resources().insert(hash, *final(v)),
                None => final(self).resources() == old(self).resources(),
            },
    {
        value_mut(&mut self.rsc_list, hash)
    }
}

} // verus!
