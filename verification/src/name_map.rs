//! A map from names to values, held as a list of entries with distinct names.
//! Its model is a `Map` from the names' characters to the values' deep views.

use vstd::prelude::*;

verus! {

/// The entries of a list as plain values: each name's characters beside the
/// deep view of its value.
pub open spec fn entry_views<V: DeepView>(e: Seq<(String, V)>) -> Seq<(Seq<char>, V::V)> {
    Seq::new(e.len(), |i: int| (e[i].0@, e[i].1.deep_view()))
}

/// The map that a list of entries denotes: entries are taken in order, and a
/// later entry for a name replaces an earlier one.
pub open spec fn assoc_map<T>(s: Seq<(Seq<char>, T)>) -> Map<Seq<char>, T>
    decreases s.len(),
{
    if s.len() == 0 {
        Map::empty()
    } else {
        assoc_map(s.drop_last()).insert(s.last().0, s.last().1)
    }
}

/// No name occurs in two entries.
pub open spec fn distinct_keys<T>(s: Seq<(Seq<char>, T)>) -> bool {
    forall|i: int, j: int|
        0 <= i < s.len() && 0 <= j < s.len() && i != j ==> #[trigger] s[i].0 != #[trigger] s[j].0
}

/// A name is in the map exactly when some entry carries it.
pub proof fn lemma_assoc_map_dom<T>(s: Seq<(Seq<char>, T)>, k: Seq<char>)
    ensures
        assoc_map(s).dom().contains(k) <==> exists|i: int| 0 <= i < s.len() && #[trigger] s[i].0 == k,
    decreases s.len(),
{
    if s.len() > 0 {
        lemma_assoc_map_dom(s.drop_last(), k);
        if assoc_map(s.drop_last()).dom().contains(k) {
            let i = choose|i: int| 0 <= i < s.drop_last().len() && #[trigger] s.drop_last()[i].0 == k;
            assert(s[i].0 == k);
        }
        if exists|i: int| 0 <= i < s.len() && #[trigger] s[i].0 == k {
            let i = choose|i: int| 0 <= i < s.len() && #[trigger] s[i].0 == k;
            if i < s.len() - 1 {
                assert(s.drop_last()[i].0 == k);
            }
        }
    }
}

/// The map's domain is finite.
pub proof fn lemma_assoc_map_finite<T>(s: Seq<(Seq<char>, T)>)
    ensures
        assoc_map(s).dom().finite(),
    decreases s.len(),
{
    if s.len() > 0 {
        lemma_assoc_map_finite(s.drop_last());
    }
}

/// With distinct names, each entry's value is the map's value at its name.
pub proof fn lemma_assoc_map_value<T>(s: Seq<(Seq<char>, T)>, i: int)
    requires
        distinct_keys(s),
        0 <= i < s.len(),
    ensures
        assoc_map(s).dom().contains(s[i].0),
        assoc_map(s)[s[i].0] == s[i].1,
    decreases s.len(),
{
    if i < s.len() - 1 {
        let t = s.drop_last();
        assert(distinct_keys(t)) by {
            assert forall|a: int, b: int| 0 <= a < t.len() && 0 <= b < t.len() && a != b implies #[trigger] t[a].0 != #[trigger] t[b].0 by {
                assert(t[a] == s[a] && t[b] == s[b]);
            }
        }
        assert(t[i] == s[i]);
        lemma_assoc_map_value(t, i);
        assert(s[i].0 != s[s.len() - 1].0);
    }
}

/// Removing the entry at `i` removes its name from the map.
pub proof fn lemma_assoc_map_remove<T>(s: Seq<(Seq<char>, T)>, i: int)
    requires
        distinct_keys(s),
        0 <= i < s.len(),
    ensures
        distinct_keys(s.remove(i)),
        assoc_map(s.remove(i)) == assoc_map(s).remove(s[i].0),
{
    let r = s.remove(i);
    assert forall|a: int, b: int| 0 <= a < r.len() && 0 <= b < r.len() && a != b implies #[trigger] r[a].0 != #[trigger] r[b].0 by {
        let a2 = if a < i { a } else { a + 1 };
        let b2 = if b < i { b } else { b + 1 };
        assert(r[a] == s[a2] && r[b] == s[b2]);
    }
    let m = assoc_map(s).remove(s[i].0);
    assert forall|k: Seq<char>| #[trigger] assoc_map(r).dom().contains(k) == m.dom().contains(k) by {
        lemma_assoc_map_dom(r, k);
        lemma_assoc_map_dom(s, k);
        if assoc_map(r).dom().contains(k) {
            let a = choose|a: int| 0 <= a < r.len() && #[trigger] r[a].0 == k;
            let a2 = if a < i { a } else { a + 1 };
            assert(r[a] == s[a2]);
        }
        if m.dom().contains(k) {
            let a = choose|a: int| 0 <= a < s.len() && #[trigger] s[a].0 == k;
            assert(a != i);
            let a1 = if a < i { a } else { a - 1 };
            assert(r[a1] == s[a]);
        }
    }
    assert forall|k: Seq<char>| #[trigger] assoc_map(r).dom().contains(k) implies assoc_map(r)[k] == m[k] by {
        lemma_assoc_map_dom(r, k);
        let a = choose|a: int| 0 <= a < r.len() && #[trigger] r[a].0 == k;
        let a2 = if a < i { a } else { a + 1 };
        assert(r[a] == s[a2]);
        lemma_assoc_map_value(r, a);
        lemma_assoc_map_value(s, a2);
    }
    assert(assoc_map(r) =~= m);
}

/// Appending an entry whose name is new keeps the names distinct.
pub proof fn lemma_distinct_push<T>(s: Seq<(Seq<char>, T)>, e: (Seq<char>, T))
    requires
        distinct_keys(s),
        !assoc_map(s).dom().contains(e.0),
    ensures
        distinct_keys(s.push(e)),
        assoc_map(s.push(e)) == assoc_map(s).insert(e.0, e.1),
{
    let t = s.push(e);
    assert(t.drop_last() =~= s);
    assert forall|a: int, b: int| 0 <= a < t.len() && 0 <= b < t.len() && a != b implies #[trigger] t[a].0 != #[trigger] t[b].0 by {
        if a < s.len() && b < s.len() {
            assert(t[a] == s[a] && t[b] == s[b]);
        } else if a < s.len() {
            assert(t[a] == s[a]);
            lemma_assoc_map_dom(s, s[a].0);
        } else {
            assert(t[b] == s[b]);
            lemma_assoc_map_dom(s, s[b].0);
        }
    }
}

/// A map from names to values.
pub struct NameMap<V> {
    entries: Vec<(String, V)>,
}

impl<V: DeepView> NameMap<V> {
    /// The entries as plain values.
    pub closed spec fn entry_seq(&self) -> Seq<(Seq<char>, V::V)> {
        entry_views(self.entries@)
    }

    /// The model: each name with the deep view of its value.
    pub closed spec fn as_map(&self) -> Map<Seq<char>, V::V> {
        assoc_map(self.entry_seq())
    }

    /// Well-formed: no name occurs twice.
    pub closed spec fn wf(&self) -> bool {
        distinct_keys(self.entry_seq())
    }

    /// An empty map.
    pub fn new() -> (r: Self)
        ensures
            r.wf(),
            r@ == Map::<Seq<char>, V::V>::empty(),
    {
        let r = NameMap { entries: Vec::new() };
        assert(r.entry_seq() =~= Seq::<(Seq<char>, V::V)>::empty());
        r
    }

    /// The number of names.
    pub fn len(&self) -> (r: usize)
        requires
            self.wf(),
        ensures
            r == self@.dom().len(),
    {
        proof {
            self.lemma_len();
        }
        self.entries.len()
    }

    proof fn lemma_len(&self)
        requires
            self.wf(),
        ensures
            self.entries@.len() == self@.dom().len(),
    {
        let s = self.entry_seq();
        lemma_dom_len(s);
    }

    /// The position of `key` among the entries.
    fn find(&self, key: &str) -> (r: Option<usize>)
        requires
            self.wf(),
        ensures
            match r {
                Some(i) => i < self.entries@.len() && self.entry_seq()[i as int].0 == key@,
                None => !self@.dom().contains(key@),
            },
    {
        let n = self.entries.len();
        let mut i: usize = 0;
        while i < n
            invariant
                n == self.entries@.len(),
                i <= n,
                forall|j: int| 0 <= j < i ==> #[trigger] self.entry_seq()[j].0 != key@,
            decreases n - i,
        {
            if crate::text::text_eq(self.entries[i].0.as_str(), key) {
                return Some(i);
            }
            i = i + 1;
        }
        proof {
            lemma_assoc_map_dom(self.entry_seq(), key@);
        }
        None
    }

    /// Whether `key` has a value.
    pub fn contains_key(&self, key: &str) -> (r: bool)
        requires
            self.wf(),
        ensures
            r == self@.dom().contains(key@),
    {
        match self.find(key) {
            Some(i) => {
                proof {
                    lemma_assoc_map_value(self.entry_seq(), i as int);
                }
                true
            },
            None => false,
        }
    }

    /// The value of `key`, if it has one.
    pub fn get(&self, key: &str) -> (r: Option<&V>)
        requires
            self.wf(),
        ensures
            match r {
                Some(v) => self@.dom().contains(key@) && v.deep_view() == self@[key@],
                None => !self@.dom().contains(key@),
            },
    {
        match self.find(key) {
            Some(i) => {
                proof {
                    lemma_assoc_map_value(self.entry_seq(), i as int);
                }
                Some(&self.entries[i].1)
            },
            None => None,
        }
    }

    /// Takes the value of `key` out of the map.
    pub fn remove(&mut self, key: &str) -> (r: Option<V>)
        requires
            old(self).wf(),
        ensures
            final(self).wf(),
            final(self)@ == old(self)@.remove(key@),
            match r {
                Some(v) => old(self)@.dom().contains(key@) && v.deep_view() == old(self)@[key@],
                None => !old(self)@.dom().contains(key@),
            },
    {
        match self.find(key) {
            Some(i) => {
                proof {
                    lemma_assoc_map_value(self.entry_seq(), i as int);
                    lemma_assoc_map_remove(self.entry_seq(), i as int);
                }
                let ghost before = self.entry_seq();
                let e = self.entries.remove(i);
                assert(self.entry_seq() =~= before.remove(i as int));
                Some(e.1)
            },
            None => {
                assert(self@ =~= old(self)@.remove(key@));
                None
            },
        }
    }

    /// Gives `key` the value `value`, replacing any value it had.
    pub fn insert(&mut self, key: String, value: V)
        requires
            old(self).wf(),
        ensures
            final(self).wf(),
            final(self)@ == old(self)@.insert(key@, value.deep_view()),
    {
        let _ = self.remove(key.as_str());
        let ghost before = self.entry_seq();
        let ghost e = (key@, value.deep_view());
        self.entries.push((key, value));
        proof {
            assert(self.entry_seq() =~= before.push(e));
            lemma_distinct_push(before, e);
        }
        assert(self@ =~= old(self)@.insert(key@, value.deep_view()));
    }

    /// The names, each once.
    pub fn keys(&self) -> (r: Vec<String>)
        requires
            self.wf(),
        ensures
            r@.len() == self@.dom().len(),
            forall|i: int, j: int| 0 <= i < r@.len() && 0 <= j < r@.len() && i != j ==> #[trigger] r@[i]@ != #[trigger] r@[j]@,
            forall|k: Seq<char>| self@.dom().contains(k) <==> exists|i: int| 0 <= i < r@.len() && #[trigger] r@[i]@ == k,
    {
        let mut r: Vec<String> = Vec::new();
        let n = self.entries.len();
        for i in 0..n
            invariant
                n == self.entries@.len(),
                r@.len() == i,
                forall|j: int| 0 <= j < i ==> #[trigger] r@[j]@ == self.entry_seq()[j].0,
        {
            r.push(self.entries[i].0.clone());
        }
        proof {
            self.lemma_len();
            let s = self.entry_seq();
            assert forall|a: int, b: int| 0 <= a < r@.len() && 0 <= b < r@.len() && a != b implies #[trigger] r@[a]@ != #[trigger] r@[b]@ by {
                assert(r@[a]@ == s[a].0 && r@[b]@ == s[b].0);
            }
            assert forall|k: Seq<char>| self@.dom().contains(k) <==> exists|i: int| 0 <= i < r@.len() && #[trigger] r@[i]@ == k by {
                lemma_assoc_map_dom(s, k);
                if self@.dom().contains(k) {
                    let i = choose|i: int| 0 <= i < s.len() && #[trigger] s[i].0 == k;
                    assert(r@[i]@ == k);
                }
                if exists|i: int| 0 <= i < r@.len() && #[trigger] r@[i]@ == k {
                    let i = choose|i: int| 0 <= i < r@.len() && #[trigger] r@[i]@ == k;
                    assert(s[i].0 == k);
                }
            }
        }
        r
    }
}

impl<V: DeepView> NameMap<V> {
    /// The entries, each name once, in no promised order.
    pub fn pairs(&self) -> (r: &Vec<(String, V)>)
        requires
            self.wf(),
        ensures
            distinct_keys(entry_views(r@)),
            assoc_map(entry_views(r@)) == self@,
    {
        &self.entries
    }
}

impl NameMap<String> {
    /// The map that a list of pairs denotes; of two pairs with one name, the
    /// later one counts.
    pub fn from_pairs(pairs: &Vec<(String, String)>) -> (r: Self)
        ensures
            r.wf(),
            r@ == assoc_map(entry_views(pairs@)),
    {
        let mut r = NameMap::new();
        let n = pairs.len();
        for i in 0..n
            invariant
                n == pairs@.len(),
                r.wf(),
                r@ == assoc_map(entry_views(pairs@).take(i as int)),
        {
            let (k, v) = &pairs[i];
            r.insert(k.clone(), v.clone());
            assert(entry_views(pairs@).take(i + 1).drop_last() =~= entry_views(pairs@).take(i as int));
        }
        assert(entry_views(pairs@).take(n as int) =~= entry_views(pairs@));
        r
    }
}

/// With distinct names, the map has as many names as there are entries.
pub proof fn lemma_dom_len<T>(s: Seq<(Seq<char>, T)>)
    requires
        distinct_keys(s),
    ensures
        assoc_map(s).dom().len() == s.len(),
        assoc_map(s).dom().finite(),
    decreases s.len(),
{
    lemma_assoc_map_finite(s);
    if s.len() > 0 {
        let t = s.drop_last();
        assert(distinct_keys(t)) by {
            assert forall|a: int, b: int| 0 <= a < t.len() && 0 <= b < t.len() && a != b implies #[trigger] t[a].0 != #[trigger] t[b].0 by {
                assert(t[a] == s[a] && t[b] == s[b]);
            }
        }
        lemma_dom_len(t);
        lemma_assoc_map_dom(t, s.last().0);
        if assoc_map(t).dom().contains(s.last().0) {
            let i = choose|i: int| 0 <= i < t.len() && #[trigger] t[i].0 == s.last().0;
            assert(s[i].0 == s[s.len() - 1].0);
        }
    }
}

impl<V: DeepView> View for NameMap<V> {
    type V = Map<Seq<char>, V::V>;

    open spec fn view(&self) -> Map<Seq<char>, V::V> {
        self.as_map()
    }
}

} // verus!
