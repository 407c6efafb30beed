//! A map keyed by token names, and the sorted list of the names of two maps.
use vstd::prelude::*;
use crate::text::{seq_lt, str_eq, str_lt, views, lemma_seq_lt_transitive, lemma_seq_lt_total};

verus! {

/// Names in strictly increasing order (so no name occurs twice).
pub open spec fn strictly_sorted(s: Seq<Seq<char>>) -> bool {
    forall|i: int, j: int| 0 <= i < j < s.len() ==> seq_lt(#[trigger] s[i], #[trigger] s[j])
}

/// The map that a list of entries with distinct names stands for.
spec fn map_of<V: View>(s: Seq<(String, V)>) -> Map<Seq<char>, V::V>
    decreases s.len(),
{
    if s.len() == 0 {
        Map::empty()
    } else {
        map_of(s.drop_last()).insert(s.last().0@, s.last().1@)
    }
}

spec fn distinct_names<V>(s: Seq<(String, V)>) -> bool {
    forall|i: int, j: int| 0 <= i < j < s.len() ==> #[trigger] s[i].0@ != #[trigger] s[j].0@
}

proof fn lemma_map_of_dom<V: View>(s: Seq<(String, V)>, k: Seq<char>)
    ensures
        map_of(s).contains_key(k) <==> exists|i: int| 0 <= i < s.len() && #[trigger] s[i].0@ == k,
    decreases s.len(),
{
    if s.len() > 0 {
        lemma_map_of_dom(s.drop_last(), k);
        if map_of(s).contains_key(k) && k != s.last().0@ {
            let i = choose|i: int| 0 <= i < s.drop_last().len() && #[trigger] s.drop_last()[i].0@ == k;
            assert(s[i].0@ == k);
        }
        if exists|i: int| 0 <= i < s.len() && #[trigger] s[i].0@ == k {
            let i = choose|i: int| 0 <= i < s.len() && #[trigger] s[i].0@ == k;
            if i < s.len() - 1 {
                assert(s.drop_last()[i].0@ == k);
            }
        }
    }
}

proof fn lemma_map_of_at<V: View>(s: Seq<(String, V)>, i: int)
    requires
        distinct_names(s),
        0 <= i < s.len(),
    ensures
        map_of(s).contains_key(s[i].0@),
        map_of(s)[s[i].0@] == s[i].1@,
    decreases s.len(),
{
    if i < s.len() - 1 {
        assert(distinct_names(s.drop_last()));
        lemma_map_of_at(s.drop_last(), i);
        assert(s[i].0@ != s[s.len() - 1].0@);
    }
}

proof fn lemma_map_of_update<V: View>(s: Seq<(String, V)>, i: int, e: (String, V))
    requires
        distinct_names(s),
        0 <= i < s.len(),
        e.0@ == s[i].0@,
    ensures
        map_of(s.update(i, e)) == map_of(s).insert(e.0@, e.1@),
        distinct_names(s.update(i, e)),
    decreases s.len(),
{
    let t = s.update(i, e);
    if i == s.len() - 1 {
        assert(t.drop_last() =~= s.drop_last());
        assert(map_of(t) =~= map_of(s).insert(e.0@, e.1@));
    } else {
        assert(t.drop_last() =~= s.drop_last().update(i, e));
        assert(distinct_names(s.drop_last()));
        lemma_map_of_update(s.drop_last(), i, e);
        assert(s[i].0@ != s.last().0@);
        assert(map_of(t) =~= map_of(s).insert(e.0@, e.1@));
    }
}

proof fn lemma_map_of_values<V: View>(s: Seq<(String, V)>, p: spec_fn(V::V) -> bool, k: Seq<char>)
    requires
        forall|v: V| #[trigger] p(v@),
        map_of(s).contains_key(k),
    ensures
        p(map_of(s)[k]),
    decreases s.len(),
{
    if k != s.last().0@ {
        lemma_map_of_values(s.drop_last(), p, k);
    } else {
        let v = s.last().1;
        assert(p(v@));
    }
}

/// A map from token names to values. Each name occurs at most once.
pub struct TokenMap<V> {
    entries: Vec<(String, V)>,
}

impl<V> TokenMap<V> {
    #[verifier::type_invariant]
    spec fn names_distinct(self) -> bool {
        distinct_names(self.entries@)
    }
}

impl<V: View> View for TokenMap<V> {
    type V = Map<Seq<char>, V::V>;

    closed spec fn view(&self) -> Map<Seq<char>, V::V> {
        map_of(self.entries@)
    }
}

impl<V: View> TokenMap<V> {
    /// An empty map.
    pub fn new() -> (m: Self)
        ensures
            m@ == Map::<Seq<char>, V::V>::empty(),
    {
        TokenMap { entries: Vec::new() }
    }

    fn find(&self, k: &str) -> (r: Option<usize>)
        ensures
            match r {
                Some(i) => i < self.entries@.len() && self.entries@[i as int].0@ == k@
                    && self@.contains_key(k@) && self@[k@] == self.entries@[i as int].1@,
                None => !self@.contains_key(k@),
            },
    {
        proof {
            use_type_invariant(self);
        }
        let n = self.entries.len();
        let mut i: usize = 0;
        while i < n
            invariant
                n == self.entries@.len(),
                i <= n,
                distinct_names(self.entries@),
                forall|j: int| 0 <= j < i ==> self.entries@[j].0@ != k@,
            decreases n - i,
        {
            if str_eq(self.entries[i].0.as_str(), k) {
                proof {
                    lemma_map_of_at(self.entries@, i as int);
                }
                return Some(i);
            }
            i = i + 1;
        }
        proof {
            lemma_map_of_dom(self.entries@, k@);
        }
        None
    }

    /// Whether a value is stored under `k`.
    pub fn contains_key(&self, k: &str) -> (r: bool)
        ensures
            r == self@.contains_key(k@),
    {
        self.find(k).is_some()
    }

    /// What holds of the view of every value holds of every value the map stores.
    pub proof fn lemma_values_satisfy(&self, p: spec_fn(V::V) -> bool)
        requires
            forall|v: V| #[trigger] p(v@),
        ensures
            forall|k: Seq<char>| #[trigger] self@.contains_key(k) ==> p(self@[k]),
    {
        assert forall|k: Seq<char>| #[trigger] self@.contains_key(k) implies p(self@[k]) by {
            lemma_map_of_values(self.entries@, p, k);
        }
    }

    /// The value stored under `k`.
    pub fn get(&self, k: &str) -> (r: Option<&V>)
        ensures
            match r {
                Some(v) => self@.contains_key(k@) && v@ == self@[k@],
                None => !self@.contains_key(k@),
            },
    {
        match self.find(k) {
            Some(i) => Some(&self.entries[i].1),
            None => None,
        }
    }

    /// Stores `v` under `k`, replacing what was stored there.
    pub fn insert(&mut self, k: String, v: V)
        ensures
            final(self)@ == old(self)@.insert(k@, v@),
    {
        proof {
            use_type_invariant(&*self);
        }
        let ghost old_entries = self.entries@;
        match self.find(k.as_str()) {
            Some(i) => {
                let mut entries: Vec<(String, V)> = Vec::new();
                std::mem::swap(&mut entries, &mut self.entries);
                proof {
                    lemma_map_of_update(entries@, i as int, (k, v));
                }
                entries.set(i, (k, v));
                self.entries = entries;
            },
            None => {
                let ghost kv = k@;
                let mut entries: Vec<(String, V)> = Vec::new();
                std::mem::swap(&mut entries, &mut self.entries);
                proof {
                    assert forall|j: int| 0 <= j < old_entries.len() implies old_entries[j].0@ != kv by {
                        lemma_map_of_dom(old_entries, kv);
                    }
                }
                entries.push((k, v));
                assert(entries@.drop_last() =~= old_entries);
                self.entries = entries;
            },
        }
    }

    /// The names of the map in increasing order, followed into `acc`.
    fn add_names_sorted(&self, acc: &mut Vec<String>)
        requires
            strictly_sorted(views(old(acc)@)),
        ensures
            strictly_sorted(views(final(acc)@)),
            forall|k: Seq<char>| #[trigger] views(final(acc)@).contains(k) <==> (views(old(acc)@).contains(k)
                || self@.contains_key(k)),
    {
        let n = self.entries.len();
        let mut i: usize = 0;
        while i < n
            invariant
                n == self.entries@.len(),
                i <= n,
                strictly_sorted(views(acc@)),
                forall|k: Seq<char>| #[trigger] views(acc@).contains(k) <==> (views(old(acc)@).contains(k)
                    || exists|j: int| 0 <= j < i && #[trigger] self.entries@[j].0@ == k),
            decreases n - i,
        {
            let name = self.entries[i].0.clone();
            insert_sorted(acc, name);
            proof {
                assert forall|k: Seq<char>| #[trigger] views(acc@).contains(k) <==> (views(old(acc)@).contains(k)
                    || exists|j: int| 0 <= j < i + 1 && #[trigger] self.entries@[j].0@ == k) by {
                    if k == self.entries@[i as int].0@ {
                        assert(self.entries@[i as int].0@ == k);
                    }
                }
            }
            i = i + 1;
        }
        proof {
            assert forall|k: Seq<char>| #[trigger] views(acc@).contains(k) <==> (views(old(acc)@).contains(k)
                || self@.contains_key(k)) by {
                lemma_map_of_dom(self.entries@, k);
            }
        }
    }
}

/// Inserts `s` at its place in a strictly sorted list, unless it is there already.
fn insert_sorted(v: &mut Vec<String>, s: String)
    requires
        strictly_sorted(views(old(v)@)),
    ensures
        strictly_sorted(views(final(v)@)),
        forall|k: Seq<char>| #[trigger] views(final(v)@).contains(k) <==> (views(old(v)@).contains(k) || k == s@),
{
    let n = v.len();
    let mut i: usize = 0;
    while i < n && str_lt(v[i].as_str(), s.as_str())
        invariant
            n == v@.len(),
            i <= n,
            forall|j: int| 0 <= j < i ==> seq_lt(#[trigger] v@[j]@, s@),
        decreases n - i,
    {
        i = i + 1;
    }
    let ghost w = views(v@);
    if i < n && str_eq(v[i].as_str(), s.as_str()) {
        proof {
            assert forall|k: Seq<char>| #[trigger] views(v@).contains(k) <==> (views(v@).contains(k) || k == s@) by {
                if k == s@ {
                    assert(w[i as int] == k);
                }
            }
        }
        return;
    }
    proof {
        if i < n {
            lemma_seq_lt_total(w[i as int], s@);
        }
    }
    let ghost sv = s@;
    v.insert(i, s);
    proof {
        let u = views(v@);
        assert(u =~= w.insert(i as int, sv));
        assert forall|a: int, b: int| 0 <= a < b < u.len() implies seq_lt(#[trigger] u[a], #[trigger] u[b]) by {
            if a < i && b < i {
            } else if a < i && b == i {
            } else if a < i && b > i {
                assert(seq_lt(w[a], w[b - 1]));
            } else if a == i {
                assert(!seq_lt(w[i as int], sv) || i == n);
                if b - 1 > i {
                    assert(seq_lt(w[i as int], w[b - 1]));
                    lemma_seq_lt_transitive(sv, w[i as int], w[b - 1]);
                }
            } else {
                assert(seq_lt(w[a - 1], w[b - 1]));
            }
        }
        assert forall|k: Seq<char>| #[trigger] u.contains(k) <==> (w.contains(k) || k == sv) by {
            if u.contains(k) {
                let j = choose|j: int| 0 <= j < u.len() && u[j] == k;
                if j < i {
                    assert(w[j] == k);
                } else if j > i {
                    assert(w[j - 1] == k);
                }
            }
            if w.contains(k) {
                let j = choose|j: int| 0 <= j < w.len() && w[j] == k;
                if j < i {
                    assert(u[j] == k);
                } else {
                    assert(u[j + 1] == k);
                }
            }
            if k == sv {
                assert(u[i as int] == k);
            }
        }
    }
}

/// The names held by either map, in increasing order, each once.
pub fn sorted_union_names<V: View, W: View>(a: &TokenMap<V>, b: &TokenMap<W>) -> (r: Vec<String>)
    ensures
        strictly_sorted(views(r@)),
        forall|k: Seq<char>| #[trigger] views(r@).contains(k) <==> (a@.contains_key(k) || b@.contains_key(k)),
{
    let mut r: Vec<String> = Vec::new();
    assert(views(r@) =~= Seq::<Seq<char>>::empty());
    a.add_names_sorted(&mut r);
    b.add_names_sorted(&mut r);
    r
}

impl TokenMap<String> {
    /// A copy of this map of strings.
    pub fn copied(&self) -> (r: Self)
        ensures
            r@ == self@,
    {
        let n = self.entries.len();
        let mut r: TokenMap<String> = TokenMap::new();
        let mut i: usize = 0;
        assert(self.entries@.take(0) =~= Seq::<(String, String)>::empty());
        while i < n
            invariant
                n == self.entries@.len(),
                i <= n,
                r@ == map_of(self.entries@.take(i as int)),
            decreases n - i,
        {
            let k = self.entries[i].0.clone();
            let v = self.entries[i].1.clone();
            r.insert(k, v);
            assert(self.entries@.take(i + 1).drop_last() =~= self.entries@.take(i as int));
            i = i + 1;
        }
        assert(self.entries@.take(n as int) =~= self.entries@);
        r
    }
}

} // verus!
