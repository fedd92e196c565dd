//! Values by tenant: a map whose entries can also be walked in a fixed order.

use vstd::prelude::*;

verus! {

/// The concurrent map of `dashmap`, which finds the place of a name.
#[verifier::external_type_specification]
#[verifier::external_body]
#[verifier::reject_recursive_types(K)]
#[verifier::reject_recursive_types(V)]
#[verifier::reject_recursive_types(S)]
pub struct ExDashMap<K, V, S>(dashmap::DashMap<K, V, S>);

/// The places that a map of names holds.
pub uninterp spec fn places(m: dashmap::DashMap<String, u64>) -> Map<Seq<char>, u64>;

/// `DashMap::new`: the map holds nothing.
#[verifier::external_body]
fn no_places() -> (r: dashmap::DashMap<String, u64>)
    ensures
        places(r).dom() =~= Set::empty(),
{
    dashmap::DashMap::new()
}

/// `DashMap::get`: the value under the name, if there is one.
#[verifier::external_body]
fn place_of(m: &dashmap::DashMap<String, u64>, name: &str) -> (r: Option<u64>)
    ensures
        r == (if places(*m).contains_key(name@) {
            Some(places(*m)[name@])
        } else {
            None
        }),
{
    m.get(name).map(|place| *place)
}

/// `DashMap::insert`: the name has the value from then on, and nothing else
/// changes.
#[verifier::external_body]
fn set_place(m: &mut dashmap::DashMap<String, u64>, name: &str, place: u64)
    ensures
        places(*final(m)) == places(*old(m)).insert(name@, place),
{
    m.insert(name.to_owned(), place);
}

/// `DashMap::remove`: the name has no value from then on, and nothing else
/// changes.
#[verifier::external_body]
fn clear_place(m: &mut dashmap::DashMap<String, u64>, name: &str)
    ensures
        places(*final(m)) == places(*old(m)).remove(name@),
{
    m.remove(name);
}

/// Values by name. The entries stand in a row; the index says where each is.
pub struct TenantMap<V> {
    index: dashmap::DashMap<String, u64>,
    entries: Vec<(String, V)>,
}

impl<V> View for TenantMap<V> {
    type V = Map<Seq<char>, V>;

    closed spec fn view(&self) -> Map<Seq<char>, V> {
        Map::new(
            |k: Seq<char>| places(self.index).contains_key(k),
            |k: Seq<char>| self.entries@[places(self.index)[k] as int].1,
        )
    }
}

/// The names of a row after a name was taken out: the last one takes its place.
pub open spec fn delisted(order: Seq<Seq<char>>, name: Seq<char>) -> Seq<Seq<char>> {
    if order.contains(name) {
        order.update(order.index_of(name), order.last()).drop_last()
    } else {
        order
    }
}

impl<V> TenantMap<V> {
    /// The index and the row agree.
    pub closed spec fn wf(&self) -> bool {
        &&& forall|i: int|
            0 <= i < self.entries@.len() ==> places(self.index).contains_key(
                (#[trigger] self.entries@[i]).0@,
            ) && places(self.index)[self.entries@[i].0@] == i
        &&& forall|k: Seq<char>| #[trigger]
            places(self.index).contains_key(k) ==> places(self.index)[k] < self.entries@.len()
                && self.entries@[places(self.index)[k] as int].0@ == k
    }

    /// The names in the order of the row.
    pub closed spec fn order(&self) -> Seq<Seq<char>> {
        self.entries@.map_values(|e: (String, V)| e.0@)
    }

    /// The names of the row are the names of the map, each once.
    pub proof fn lemma_order(&self)
        requires
            self.wf(),
        ensures
            self.order().no_duplicates(),
            forall|k: Seq<char>| #[trigger] self@.contains_key(k) <==> self.order().contains(k),
            forall|i: int|
                0 <= i < self.order().len() ==> self@.contains_key(#[trigger] self.order()[i]),
    {
        let o = self.order();
        assert forall|i: int, j: int| 0 <= i < o.len() && 0 <= j < o.len() && i != j implies o[i]
            != o[j] by {
            assert(o[i] == self.entries@[i].0@);
            assert(o[j] == self.entries@[j].0@);
        }
        assert forall|i: int| 0 <= i < o.len() implies self@.contains_key(#[trigger] o[i]) by {
            assert(o[i] == self.entries@[i].0@);
        }
        assert forall|k: Seq<char>| #[trigger] self@.contains_key(k) implies o.contains(k) by {
            assert(places(self.index).contains_key(k));
            assert(o[places(self.index)[k] as int] == k);
        }
    }

    /// A map without entries.
    pub fn new() -> (r: Self)
        ensures
            r.wf(),
            r@ == Map::<Seq<char>, V>::empty(),
            r.order() == Seq::<Seq<char>>::empty(),
    {
        let r = TenantMap { index: no_places(), entries: Vec::new() };
        assert(r@ =~= Map::<Seq<char>, V>::empty());
        assert(r.order() =~= Seq::<Seq<char>>::empty());
        r
    }

    /// The number of entries.
    pub fn len(&self) -> (r: usize)
        ensures
            r == self.order().len(),
    {
        self.entries.len()
    }

    /// Whether the name has a value.
    pub fn contains_key(&self, name: &str) -> (r: bool)
        requires
            self.wf(),
        ensures
            r == self@.contains_key(name@),
    {
        place_of(&self.index, name).is_some()
    }

    /// The value of a name.
    pub fn get(&self, name: &str) -> (r: Option<&V>)
        requires
            self.wf(),
        ensures
            r is Some <==> self@.contains_key(name@),
            r matches Some(v) ==> *v == self@[name@],
    {
        let n: usize = self.entries.len();
        match place_of(&self.index, name) {
            None => None,
            Some(place) => {
                assert(places(self.index).contains_key(name@) && place < n);
                Some(&self.entries[place as usize].1)
            },
        }
    }

    /// The name at a place of the row.
    pub fn name_at(&self, i: usize) -> (r: &str)
        requires
            i < self.order().len(),
        ensures
            r@ == self.order()[i as int],
    {
        self.entries[i].0.as_str()
    }

    /// The value at a place of the row.
    pub fn value_at(&self, i: usize) -> (r: &V)
        requires
            self.wf(),
            i < self.order().len(),
        ensures
            *r == self@[self.order()[i as int]],
    {
        assert(places(self.index).contains_key(self.entries@[i as int].0@));
        &self.entries[i].1
    }

    /// Gives the name the value; a name that has none goes to the end of the
    /// row.
    pub fn insert(&mut self, name: &str, value: V)
        requires
            old(self).wf(),
        ensures
            final(self).wf(),
            final(self)@ == old(self)@.insert(name@, value),
            final(self).order() == (if old(self)@.contains_key(name@) {
                old(self).order()
            } else {
                old(self).order().push(name@)
            }),
    {
        let n: usize = self.entries.len();
        match place_of(&self.index, name) {
            Some(place) => {
                assert(places(self.index).contains_key(name@) && place < n);
                let i: usize = place as usize;
                self.entries[i] = (name.to_owned(), value);
                assert(self.order() =~= old(self).order());
            },
            None => {
                let i: usize = self.entries.len();
                set_place(&mut self.index, name, i as u64);
                self.entries.push((name.to_owned(), value));
                assert forall|j: int| 0 <= j < self.entries@.len() implies places(
                    self.index,
                ).contains_key((#[trigger] self.entries@[j]).0@) && places(
                    self.index,
                )[self.entries@[j].0@] == j by {
                    if j < i {
                        assert(self.entries@[j] == old(self).entries@[j]);
                        assert(places(old(self).index).contains_key(old(self).entries@[j].0@));
                    }
                }
                assert forall|k: Seq<char>| #[trigger]
                    places(self.index).contains_key(k) implies places(self.index)[k]
                    < self.entries@.len() && self.entries@[places(self.index)[k] as int].0@
                    == k by {
                    if k != name@ {
                        assert(places(old(self).index).contains_key(k));
                    }
                }
                assert(self.order() =~= old(self).order().push(name@));
            },
        }
        assert(self@ =~= old(self)@.insert(name@, value));
    }

    /// Takes the value of the name away; the last entry of the row takes its
    /// place.
    pub fn remove(&mut self, name: &str)
        requires
            old(self).wf(),
        ensures
            final(self).wf(),
            final(self)@ == old(self)@.remove(name@),
            final(self).order() == delisted(old(self).order(), name@),
    {
        let n: usize = self.entries.len();
        proof {
            self.lemma_order();
        }
        match place_of(&self.index, name) {
            None => {
                assert(!self@.contains_key(name@));
                assert(self@ =~= old(self)@.remove(name@));
            },
            Some(place) => {
                assert(places(self.index).contains_key(name@) && place < n);
                let i: usize = place as usize;
                let last: usize = self.entries.len() - 1;
                let moved = self.entries[last].0.clone();
                let ghost before = *self;
                let _ = self.entries.swap_remove(i);
                clear_place(&mut self.index, name);
                if i != last {
                    assert(before.entries@[last as int].0@ != name@);
                    set_place(&mut self.index, moved.as_str(), place);
                }
                assert forall|j: int| 0 <= j < self.entries@.len() implies places(
                    self.index,
                ).contains_key((#[trigger] self.entries@[j]).0@) && places(
                    self.index,
                )[self.entries@[j].0@] == j by {
                    if j != i {
                        assert(self.entries@[j] == before.entries@[j]);
                        assert(places(before.index)[before.entries@[j].0@] == j);
                        assert(places(before.index)[before.entries@[last as int].0@] == last);
                    }
                }
                assert forall|k: Seq<char>| #[trigger]
                    places(self.index).contains_key(k) implies places(self.index)[k]
                    < self.entries@.len() && self.entries@[places(self.index)[k] as int].0@
                    == k by {
                    assert(places(before.index).contains_key(before.entries@[last as int].0@));
                    if k != moved@ {
                        assert(places(before.index).contains_key(k));
                    }
                }
                assert(self@ =~= before@.remove(name@));
                proof {
                    let o = before.order();
                    assert(o[place as int] == name@);
                    assert(o.contains(name@));
                    assert(o[o.index_of(name@)] == name@);
                    assert(o.index_of(name@) == place);
                    assert(self.order() =~= delisted(o, name@));
                }
            },
        }
    }

    /// The names, each once.
    pub fn names(&self) -> (r: Vec<String>)
        ensures
            r@.map_values(|s: String| s@) == self.order(),
    {
        let mut r: Vec<String> = Vec::new();
        let mut i: usize = 0;
        while i < self.entries.len()
            invariant
                0 <= i <= self.entries@.len(),
                r@.map_values(|s: String| s@) == self.order().take(i as int),
            decreases self.entries@.len() - i,
        {
            let name = self.entries[i].0.clone();
            assert(name@ == self.order()[i as int]);
            let ghost before = r@.map_values(|s: String| s@);
            r.push(name);
            i = i + 1;
            assert(r@.map_values(|s: String| s@) =~= before.push(name@));
            assert(r@.map_values(|s: String| s@) =~= self.order().take(i as int));
        }
        assert(self.order().take(i as int) =~= self.order());
        r
    }
}

/// A name that is taken off a list is not on it any more, and every other name is on it
/// as before; a name that was not on it changes nothing.
pub proof fn law_delisting(order: Seq<Seq<char>>, name: Seq<char>, other: Seq<char>)
    requires
        order.no_duplicates(),
    ensures
        !delisted(order, name).contains(name),
        other != name ==> (delisted(order, name).contains(other) <==> order.contains(other)),
        order.contains(name) ==> delisted(order, name).len() == order.len() - 1,
        !order.contains(name) ==> delisted(order, name) == order,
        delisted(order, name).no_duplicates(),
{
    let d = delisted(order, name);
    if order.contains(name) {
        let at = order.index_of(name);
        assert(0 <= at < order.len() && order[at] == name);
        let n = order.len() - 1;
        assert forall|i: int| 0 <= i < n implies #[trigger] d[i] == (if i == at {
            order[n]
        } else {
            order[i]
        }) by {}
        if order.contains(other) && other != name {
            let i = choose|i: int| 0 <= i < order.len() && order[i] == other;
            if i < n {
                assert(d[i] == other);
            } else {
                assert(d[at] == other);
            }
        }
    }
}

} // verus!
