use std::collections::BTreeSet;
use vstd::prelude::*;
use vstd::laws_cmp::obeys_cmp;
use vstd::std_specs::cmp::{OrdSpec, PartialEqSpec};
use vstd::std_specs::iter::IteratorSpec;

verus! {

/// A before/after pair of the same logical thing.
#[derive(Debug, Clone, Copy)]
pub struct OldNew<T> {
    pub old: T,
    pub new: T,
}

/// How the keys of two versions relate: the keys only the old one has, the
/// keys only the new one has, and the keys both have.
#[derive(Debug)]
pub struct Changes<T> {
    pub removed: BTreeSet<T>,
    pub added: BTreeSet<T>,
    pub same: BTreeSet<T>,
}

impl<T> OldNew<T> {
    /// The pair of the two versions.
    pub fn new(old: T, new: T) -> (pair: Self)
        ensures
            pair.old == old,
            pair.new == new,
    {
        OldNew { old, new }
    }

    /// Applies `f` to the old side and then to the new side.
    pub fn map<U>(self, mut f: impl FnMut(T) -> U) -> (pair: OldNew<U>)
        requires
            call_requires(f, (self.old,)),
            call_requires(f, (self.new,)),
        ensures
            call_ensures(f, (self.old,), pair.old),
            call_ensures(f, (self.new,), pair.new),
    {
        OldNew { old: f(self.old), new: f(self.new) }
    }

    /// Applies `f` to each side together with the same side of `other`, the
    /// old side first.
    pub fn map_zip<U, O>(self, other: &OldNew<O>, mut f: impl FnMut(T, &O) -> U) -> (pair: OldNew<
        U,
    >)
        requires
            call_requires(f, (self.old, &other.old)),
            call_requires(f, (self.new, &other.new)),
        ensures
            call_ensures(f, (self.old, &other.old), pair.old),
            call_ensures(f, (self.new, &other.new), pair.new),
    {
        OldNew { old: f(self.old, &other.old), new: f(self.new, &other.new) }
    }

    /// The pair of references to the two sides.
    pub fn as_ref(&self) -> (pair: OldNew<&T>)
        ensures
            *pair.old == self.old,
            *pair.new == self.new,
    {
        OldNew { old: &self.old, new: &self.new }
    }

    /// Applies `f` to the old side and, if that succeeds, to the new side.
    /// The first failure is the result; after a failure on the old side the
    /// new side is not looked at.
    pub fn try_map<U, E>(self, mut f: impl FnMut(T) -> Result<U, E>) -> (res: Result<OldNew<U>, E>)
        requires
            call_requires(f, (self.old,)),
            call_requires(f, (self.new,)),
        ensures
            match res {
                Ok(pair) => call_ensures(f, (self.old,), Ok(pair.old)) && call_ensures(
                    f,
                    (self.new,),
                    Ok(pair.new),
                ),
                Err(e) => call_ensures(f, (self.old,), Err(e)) || (exists|u: U|
                    call_ensures(f, (self.old,), Ok(u)) && call_ensures(f, (self.new,), Err(e))),
            },
    {
        let old = match f(self.old) {
            Ok(u) => u,
            Err(e) => { return Err(e); },
        };
        let new = match f(self.new) {
            Ok(u) => u,
            Err(e) => { return Err(e); },
        };
        Ok(OldNew { old, new })
    }

    /// Applies `f` to each side together with the same side of `other`, the
    /// old side first, and stops at the first failure.
    pub fn try_map_zip<U, O, E>(
        self,
        other: &OldNew<O>,
        mut f: impl FnMut(T, &O) -> Result<U, E>,
    ) -> (res: Result<OldNew<U>, E>)
        requires
            call_requires(f, (self.old, &other.old)),
            call_requires(f, (self.new, &other.new)),
        ensures
            match res {
                Ok(pair) => call_ensures(f, (self.old, &other.old), Ok(pair.old)) && call_ensures(
                    f,
                    (self.new, &other.new),
                    Ok(pair.new),
                ),
                Err(e) => call_ensures(f, (self.old, &other.old), Err(e)) || (exists|u: U|
                    call_ensures(f, (self.old, &other.old), Ok(u)) && call_ensures(
                        f,
                        (self.new, &other.new),
                        Err(e),
                    )),
            },
    {
        let old = match f(self.old, &other.old) {
            Ok(u) => u,
            Err(e) => { return Err(e); },
        };
        let new = match f(self.new, &other.new) {
            Ok(u) => u,
            Err(e) => { return Err(e); },
        };
        Ok(OldNew { old, new })
    }

    /// Hands the pair to `f`.
    pub fn consume<R>(self, f: impl FnOnce(Self) -> R) -> (out: R)
        requires
            call_requires(f, (self,)),
        ensures
            call_ensures(f, (self,), out),
    {
        f(self)
    }

    /// Classifies the keys that `f` draws from each side: the old side's keys
    /// the new side lacks, the new side's keys the old side lacks, and the keys
    /// both sides have.
    pub fn changes<Iter>(&self, mut f: impl FnMut(&T) -> Iter) -> (c: Changes<Iter::Item>) where
        Iter: Iterator,
        Iter::Item: Ord + Copy,

        requires
            obeys_cmp::<Iter::Item>(),
            call_requires(f, (&self.old,)),
            call_requires(f, (&self.new,)),
            forall|keys: Iter| #[trigger]
                call_ensures(f, (&self.old,), keys) ==> keys.obeys_prophetic_iter_laws()
                    && keys.decrease() is Some,
            forall|keys: Iter| #[trigger]
                call_ensures(f, (&self.new,), keys) ==> keys.obeys_prophetic_iter_laws()
                    && keys.decrease() is Some,
        ensures
            exists|old_keys: Iter, new_keys: Iter|
                {
                    &&& #[trigger] call_ensures(f, (&self.old,), old_keys)
                    &&& #[trigger] call_ensures(f, (&self.new,), new_keys)
                    &&& c.classifies(old_keys.remaining().to_set(), new_keys.remaining().to_set())
                },
    {
        let old_keys = f(&self.old);
        let new_keys = f(&self.new);
        let old_items = collect_keys(old_keys);
        let new_items = collect_keys(new_keys);
        let removed = select_keys(&old_items, &new_items, false);
        let added = select_keys(&new_items, &old_items, false);
        let same = select_keys(&old_items, &new_items, true);
        Changes { removed, added, same }
    }

    /// The greater of the two sides; the new side if they are equal.
    pub fn max(self) -> (m: T) where T: Ord
        ensures
            T::obeys_cmp_spec() ==> m == (if self.new.cmp_spec(&self.old) == std::cmp::Ordering::Less {
                self.old
            } else {
                self.new
            }),
    {
        self.old.max(self.new)
    }
}

impl<T> Changes<T> {
    /// Whether the three sets are what two versions with the key sets
    /// `old_keys` and `new_keys` come to.
    pub open spec fn classifies(self, old_keys: Set<T>, new_keys: Set<T>) -> bool {
        &&& self.removed@ == old_keys.difference(new_keys)
        &&& self.added@ == new_keys.difference(old_keys)
        &&& self.same@ == old_keys.intersect(new_keys)
    }

    /// A classification splits each version's keys in two: the old keys are
    /// the removed and the common ones, the new keys are the added and the
    /// common ones, and no key is in two of the three sets.
    pub proof fn lemma_partition(self, old_keys: Set<T>, new_keys: Set<T>)
        requires
            self.classifies(old_keys, new_keys),
        ensures
            self.removed@.union(self.same@) == old_keys,
            self.added@.union(self.same@) == new_keys,
            self.removed@.disjoint(self.added@),
            self.removed@.disjoint(self.same@),
            self.added@.disjoint(self.same@),
    {
        assert(self.removed@.union(self.same@) =~= old_keys);
        assert(self.added@.union(self.same@) =~= new_keys);
    }
}

/// Gathers what an iterator yields into an ordered set.
fn collect_keys<Iter>(keys: Iter) -> (set: BTreeSet<Iter::Item>) where
    Iter: Iterator,
    Iter::Item: Ord + Copy,

    requires
        keys.obeys_prophetic_iter_laws(),
        keys.decrease() is Some,
    ensures
        obeys_cmp::<Iter::Item>() ==> set@ == keys.remaining().to_set(),
{
    let mut set = BTreeSet::new();
    let mut rest = keys;
    let ghost seen = Seq::<Iter::Item>::empty();
    loop
        invariant
            rest.obeys_prophetic_iter_laws(),
            rest.decrease() is Some,
            keys.remaining() == seen + rest.remaining(),
            obeys_cmp::<Iter::Item>() ==> set@ == seen.to_set(),
        ensures
            obeys_cmp::<Iter::Item>() ==> set@ == keys.remaining().to_set(),
        decreases rest.decrease()->0,
    {
        let ghost before = rest.remaining();
        match rest.next() {
            Some(k) => {
                set.insert(k);
                proof {
                    assert(seen.push(k) + rest.remaining() =~= seen + before);
                    seen.lemma_push_to_set_commute(k);
                    seen = seen.push(k);
                }
            },
            None => {
                assert(seen + before =~= seen);
                break ;
            },
        }
    }
    set
}

/// The keys of `from` that `other` has (`keep_shared`) or lacks (otherwise).
fn select_keys<K: Ord + Copy>(from: &BTreeSet<K>, other: &BTreeSet<K>, keep_shared: bool) -> (set:
    BTreeSet<K>)
    requires
        obeys_cmp::<K>(),
    ensures
        set@ == (if keep_shared {
            from@.intersect(other@)
        } else {
            from@.difference(other@)
        }),
{
    let mut set = BTreeSet::new();
    let ghost seen = Seq::<K>::empty();
    for k in it: from.iter()
        invariant
            obeys_cmp::<K>(),
            it.seq().unref().to_set() == from@,
            seen == it.seq().take(it.index()).unref(),
            it.index() == it.seq().len() ==> seen.to_set() == from@,
            set@ == seen.to_set().filter(|k: K| other@.contains(k) == keep_shared),
    {
        proof {
            let next = it.seq().take(it.index() + 1).unref();
            assert(next =~= seen.push(*k));
            seen.lemma_push_to_set_commute(*k);
            if it.index() + 1 == it.seq().len() {
                assert(it.seq().take(it.index() + 1) =~= it.seq());
            }
            seen = seen.push(*k);
        }
        if other.contains(k) == keep_shared {
            set.insert(*k);
        }
    }
    set
}

impl<T: std::ops::Deref> OldNew<T> {
    /// The pair of what the two sides dereference to.
    pub fn as_deref(&self) -> (pair: OldNew<&T::Target>)
        ensures
            call_ensures(T::deref, (&self.old,), pair.old),
            call_ensures(T::deref, (&self.new,), pair.new),
    {
        OldNew { old: self.old.deref(), new: self.new.deref() }
    }
}

impl<T: PartialEq> OldNew<T> {
    /// Whether the two sides differ.
    pub fn changed(&self) -> (differs: bool)
        ensures
            T::obeys_eq_spec() ==> differs == !self.old.eq_spec(&self.new),
    {
        self.old != self.new
    }
}

} // verus!

