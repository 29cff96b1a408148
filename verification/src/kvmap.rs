//! A last-write-wins string-keyed map, kept as a vector of bindings with
//! pairwise distinct keys, together with a name-list value type.  These
//! stand in for hash maps in the aggregated report; contracts speak of
//! the abstract `Map` and `Seq` views.

use vstd::prelude::*;

verus! {

/// One key-value binding.
pub struct Pair<V> {
    pub key: String,
    pub val: V,
}

/// The mapping described by a sequence of bindings, a later binding for
/// a key overwriting an earlier one.
pub open spec fn map_of<V: View>(ps: Seq<Pair<V>>) -> Map<Seq<char>, V::V>
    decreases ps.len(),
{
    if ps.len() == 0 {
        Map::empty()
    } else {
        map_of(ps.drop_last()).insert(ps.last().key@, ps.last().val@)
    }
}

/// A key is bound exactly when some pair carries it.
pub proof fn lemma_map_of_contains<V: View>(ps: Seq<Pair<V>>, k: Seq<char>)
    ensures
        map_of(ps).contains_key(k) <==> exists|i: int| 0 <= i < ps.len() && ps[i].key@ == k,
    decreases ps.len(),
{
    if ps.len() > 0 {
        lemma_map_of_contains(ps.drop_last(), k);
        assert(forall|i: int| 0 <= i < ps.len() - 1 ==> ps.drop_last()[i] == ps[i]);
        if map_of(ps).contains_key(k) {
            if k == ps.last().key@ {
                assert(ps[ps.len() - 1].key@ == k);
            }
        }
        if exists|i: int| 0 <= i < ps.len() && ps[i].key@ == k {
            let i = choose|i: int| 0 <= i < ps.len() && ps[i].key@ == k;
            if i < ps.len() - 1 {
                assert(ps.drop_last()[i].key@ == k);
            }
        }
    }
}

/// With distinct keys, each pair's binding is visible in the map.
pub proof fn lemma_map_of_get<V: View>(ps: Seq<Pair<V>>, i: int)
    requires
        0 <= i < ps.len(),
        forall|a: int, b: int| 0 <= a < b < ps.len() ==> ps[a].key@ != ps[b].key@,
    ensures
        map_of(ps).contains_key(ps[i].key@),
        map_of(ps)[ps[i].key@] == ps[i].val@,
    decreases ps.len(),
{
    assert(forall|j: int| 0 <= j < ps.len() - 1 ==> ps.drop_last()[j] == ps[j]);
    if i == ps.len() - 1 {
    } else {
        lemma_map_of_get(ps.drop_last(), i);
        assert(ps[i].key@ != ps.last().key@);
    }
}

/// With distinct keys, overwriting the pair that carries a key updates
/// exactly that key's binding.
pub proof fn lemma_map_of_update<V: View>(ps: Seq<Pair<V>>, i: int, p: Pair<V>)
    requires
        0 <= i < ps.len(),
        forall|a: int, b: int| 0 <= a < b < ps.len() ==> ps[a].key@ != ps[b].key@,
        p.key@ == ps[i].key@,
    ensures
        map_of(ps.update(i, p)) =~= map_of(ps).insert(p.key@, p.val@),
    decreases ps.len(),
{
    assert(forall|j: int| 0 <= j < ps.len() - 1 ==> ps.drop_last()[j] == ps[j]);
    if i == ps.len() - 1 {
        assert(ps.update(i, p).drop_last() =~= ps.drop_last());
        assert(ps.update(i, p).last() == p);
    } else {
        assert(ps.update(i, p).drop_last() =~= ps.drop_last().update(i, p));
        assert(ps.update(i, p).last() == ps.last());
        lemma_map_of_update(ps.drop_last(), i, p);
        assert(p.key@ != ps.last().key@);
    }
}

/// Appending a pair adds its binding.
pub proof fn lemma_map_of_push<V: View>(ps: Seq<Pair<V>>, p: Pair<V>)
    ensures
        map_of(ps.push(p)) == map_of(ps).insert(p.key@, p.val@),
{
    assert(ps.push(p).drop_last() =~= ps);
    assert(ps.push(p).last() == p);
}

/// The map's domain is finite.
pub proof fn lemma_map_of_finite<V: View>(ps: Seq<Pair<V>>)
    ensures
        map_of(ps).dom().finite(),
    decreases ps.len(),
{
    if ps.len() > 0 {
        lemma_map_of_finite(ps.drop_last());
    }
}

/// With distinct keys, the map holds exactly one binding per pair.
pub proof fn lemma_map_of_dom_len<V: View>(ps: Seq<Pair<V>>)
    requires
        forall|a: int, b: int| 0 <= a < b < ps.len() ==> ps[a].key@ != ps[b].key@,
    ensures
        map_of(ps).dom().finite(),
        map_of(ps).dom().len() == ps.len(),
    decreases ps.len(),
{
    lemma_map_of_finite(ps);
    if ps.len() > 0 {
        assert(forall|j: int| 0 <= j < ps.len() - 1 ==> ps.drop_last()[j] == ps[j]);
        lemma_map_of_dom_len(ps.drop_last());
        lemma_map_of_contains(ps.drop_last(), ps.last().key@);
        assert(!map_of(ps.drop_last()).contains_key(ps.last().key@));
        assert(map_of(ps).dom() =~= map_of(ps.drop_last()).dom().insert(ps.last().key@));
    }
}

/// A last-write-wins map from strings to values.
pub struct KvMap<V> {
    pub pairs: Vec<Pair<V>>,
}

impl<V: View> View for KvMap<V> {
    type V = Map<Seq<char>, V::V>;

    open spec fn view(&self) -> Map<Seq<char>, V::V> {
        map_of(self.pairs@)
    }
}

impl<V: View> KvMap<V> {
    /// Bindings carry pairwise distinct keys.
    pub open spec fn wf(&self) -> bool {
        forall|a: int, b: int|
            0 <= a < b < self.pairs@.len() ==> self.pairs@[a].key@ != self.pairs@[b].key@
    }

    /// An empty map.
    pub fn new() -> (r: Self)
        ensures
            r.wf(),
            r@ == Map::<Seq<char>, V::V>::empty(),
            r.pairs@.len() == 0,
    {
        KvMap { pairs: Vec::new() }
    }

    /// The number of bindings.
    pub fn len(&self) -> (r: usize)
        requires
            self.wf(),
        ensures
            r == self@.dom().len(),
    {
        proof {
            lemma_map_of_dom_len(self.pairs@);
        }
        self.pairs.len()
    }

    /// The value bound to `key`, if any.
    pub fn get<'a>(&'a self, key: &String) -> (r: Option<&'a V>)
        requires
            self.wf(),
        ensures
            r is Some <==> self@.contains_key(key@),
            r matches Some(v) ==> self@[key@] == v@,
    {
        let n = self.pairs.len();
        let mut i: usize = 0;
        while i < n
            invariant
                self.wf(),
                n == self.pairs@.len(),
                0 <= i <= n,
                forall|j: int| 0 <= j < i ==> self.pairs@[j].key@ != key@,
            decreases n - i,
        {
            if self.pairs[i].key.eq(key) {
                proof {
                    lemma_map_of_get(self.pairs@, i as int);
                }
                return Some(&self.pairs[i].val);
            }
            i = i + 1;
        }
        proof {
            lemma_map_of_contains(self.pairs@, key@);
        }
        None
    }

    /// Binds `key` to `val`, overwriting an earlier binding of the same
    /// key.
    pub fn insert(&mut self, key: String, val: V)
        requires
            old(self).wf(),
        ensures
            final(self).wf(),
            final(self)@ == old(self)@.insert(key@, val@),
    {
        let n = self.pairs.len();
        let mut i: usize = 0;
        while i < n
            invariant
                self.wf(),
                self.pairs@ == old(self).pairs@,
                n == self.pairs@.len(),
                0 <= i <= n,
                forall|j: int| 0 <= j < i ==> self.pairs@[j].key@ != key@,
            decreases n - i,
        {
            if self.pairs[i].key.eq(&key) {
                let mut p = self.pairs.remove(i);
                p.val = val;
                let ghost ps = old(self).pairs@;
                self.pairs.insert(i, p);
                proof {
                    assert(self.pairs@ =~= ps.update(i as int, self.pairs@[i as int]));
                    lemma_map_of_update(ps, i as int, self.pairs@[i as int]);
                }
                return ;
            }
            i = i + 1;
        }
        proof {
            lemma_map_of_push(self.pairs@, Pair { key, val });
        }
        self.pairs.push(Pair { key, val });
    }
}

impl KvMap<NameList> {
    /// Appends `name` to the child list bound to `key`, creating the
    /// list when `key` is not yet bound.
    pub fn push_child(&mut self, key: String, name: String)
        requires
            old(self).wf(),
        ensures
            final(self).wf(),
            final(self)@ == old(self)@.insert(
                key@,
                (if old(self)@.contains_key(key@) {
                    old(self)@[key@]
                } else {
                    Seq::<Seq<char>>::empty()
                }).push(name@),
            ),
    {
        let n = self.pairs.len();
        let mut i: usize = 0;
        while i < n
            invariant
                self.wf(),
                self.pairs@ == old(self).pairs@,
                n == self.pairs@.len(),
                0 <= i <= n,
                forall|j: int| 0 <= j < i ==> self.pairs@[j].key@ != key@,
            decreases n - i,
        {
            if self.pairs[i].key.eq(&key) {
                proof {
                    lemma_map_of_get(self.pairs@, i as int);
                }
                let mut p = self.pairs.remove(i);
                p.val.push(name);
                let ghost ps = old(self).pairs@;
                self.pairs.insert(i, p);
                proof {
                    assert(self.pairs@ =~= ps.update(i as int, self.pairs@[i as int]));
                    lemma_map_of_update(ps, i as int, self.pairs@[i as int]);
                }
                return ;
            }
            i = i + 1;
        }
        proof {
            lemma_map_of_contains(self.pairs@, key@);
        }
        let mut list = NameList::new();
        list.push(name);
        proof {
            lemma_map_of_push(self.pairs@, Pair { key, val: list });
        }
        self.pairs.push(Pair { key, val: list });
    }
}

/// A list of child names; duplicates are kept.
pub struct NameList {
    pub names: Vec<String>,
}

impl View for NameList {
    type V = Seq<Seq<char>>;

    open spec fn view(&self) -> Seq<Seq<char>> {
        self.names@.map_values(|s: String| s@)
    }
}

impl NameList {
    /// An empty list.
    pub fn new() -> (r: Self)
        ensures
            r@ == Seq::<Seq<char>>::empty(),
    {
        let r = NameList { names: Vec::new() };
        proof {
            assert(r@ =~= Seq::<Seq<char>>::empty());
        }
        r
    }

    /// Appends a name.
    pub fn push(&mut self, name: String)
        ensures
            final(self)@ == old(self)@.push(name@),
    {
        self.names.push(name);
        proof {
            assert(self@ =~= old(self)@.push(name@));
        }
    }

    /// The number of names.
    pub fn len(&self) -> (r: usize)
        ensures
            r == self@.len(),
    {
        self.names.len()
    }

    /// Whether `name` is in the list.
    pub fn contains(&self, name: &String) -> (r: bool)
        ensures
            r == self@.contains(name@),
    {
        let n = self.names.len();
        let mut i: usize = 0;
        while i < n
            invariant
                n == self.names@.len(),
                0 <= i <= n,
                forall|j: int| 0 <= j < i ==> self@[j] != name@,
            decreases n - i,
        {
            if self.names[i].eq(name) {
                assert(self@[i as int] == name@);
                return true;
            }
            i = i + 1;
        }
        assert(forall|j: int| 0 <= j < self@.len() ==> self@[j] != name@);
        false
    }
}

} // verus!
