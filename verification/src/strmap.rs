//! A map keyed by strings that keeps its keys in ascending order, so it
//! iterates the way a `BTreeMap<String, _>` does.
use vstd::prelude::*;

use crate::text::chars_of;

verus! {

/// Lexicographic order on character sequences (code-point order, which is
/// also the byte order of their UTF-8 encodings).
pub open spec fn seq_lt(a: Seq<char>, b: Seq<char>) -> bool
    decreases a.len(),
{
    if a.len() == 0 {
        b.len() > 0
    } else if b.len() == 0 {
        false
    } else if a[0] != b[0] {
        a[0] < b[0]
    } else {
        seq_lt(a.drop_first(), b.drop_first())
    }
}

pub proof fn lemma_seq_lt_irrefl(a: Seq<char>)
    ensures
        !seq_lt(a, a),
    decreases a.len(),
{
    if a.len() > 0 {
        lemma_seq_lt_irrefl(a.drop_first());
    }
}

pub proof fn lemma_seq_lt_trans(a: Seq<char>, b: Seq<char>, c: Seq<char>)
    requires
        seq_lt(a, b),
        seq_lt(b, c),
    ensures
        seq_lt(a, c),
    decreases a.len(),
{
    if a.len() > 0 && b.len() > 0 && c.len() > 0 {
        if a[0] == b[0] && b[0] == c[0] {
            lemma_seq_lt_trans(a.drop_first(), b.drop_first(), c.drop_first());
        }
    }
}

pub proof fn lemma_seq_lt_total(a: Seq<char>, b: Seq<char>)
    ensures
        a == b || seq_lt(a, b) || seq_lt(b, a),
    decreases a.len(),
{
    if a.len() > 0 && b.len() > 0 {
        if a[0] == b[0] {
            lemma_seq_lt_total(a.drop_first(), b.drop_first());
            if a.drop_first() == b.drop_first() {
                assert(a =~= seq![a[0]] + a.drop_first());
                assert(b =~= seq![b[0]] + b.drop_first());
            }
        }
    } else if a.len() == 0 && b.len() == 0 {
        assert(a =~= b);
    }
}

pub proof fn lemma_seq_lt_asym(a: Seq<char>, b: Seq<char>)
    requires
        seq_lt(a, b),
    ensures
        !seq_lt(b, a),
        a != b,
{
    if seq_lt(b, a) {
        lemma_seq_lt_trans(a, b, a);
        lemma_seq_lt_irrefl(a);
    }
    if a == b {
        lemma_seq_lt_irrefl(a);
    }
}

/// Executable `seq_lt` on two strings.
pub fn str_lt(a: &str, b: &str) -> (res: bool)
    ensures
        res == seq_lt(a@, b@),
{
    let x = chars_of(a);
    let y = chars_of(b);
    let mut i: usize = 0;
    while i < x.len() && i < y.len() && x[i] == y[i]
        invariant
            i <= x.len(),
            i <= y.len(),
            forall|j: int| 0 <= j < i ==> x@[j] == y@[j],
        decreases x.len() - i,
    {
        i += 1;
    }
    proof {
        lemma_seq_lt_skip(x@, y@, i as int);
    }
    if i == x.len() {
        i < y.len()
    } else if i == y.len() {
        false
    } else {
        x[i] < y[i]
    }
}

proof fn lemma_seq_lt_skip(a: Seq<char>, b: Seq<char>, i: int)
    requires
        0 <= i <= a.len(),
        i <= b.len(),
        forall|j: int| 0 <= j < i ==> a[j] == b[j],
    ensures
        seq_lt(a, b) == seq_lt(a.skip(i), b.skip(i)),
    decreases i,
{
    if i > 0 {
        assert(a[0] == b[0]);
        lemma_seq_lt_skip(a.drop_first(), b.drop_first(), i - 1);
        assert(a.drop_first().skip(i - 1) =~= a.skip(i));
        assert(b.drop_first().skip(i - 1) =~= b.skip(i));
    } else {
        assert(a.skip(0) =~= a);
        assert(b.skip(0) =~= b);
    }
}

pub fn str_eq(a: &str, b: &str) -> (res: bool)
    ensures
        res == (a@ == b@),
{
    let x = chars_of(a);
    let y = chars_of(b);
    crate::text::seq_eq(x.as_slice(), y.as_slice())
}

/// Strictly ascending key order.
pub open spec fn sorted_keys(ks: Seq<Seq<char>>) -> bool {
    forall|i: int, j: int| 0 <= i < j < ks.len() ==> seq_lt(#[trigger] ks[i], #[trigger] ks[j])
}

/// An ordered string-keyed map.
pub struct StrMap<V: View> {
    entries: Vec<(String, V)>,
}

impl<V: View> StrMap<V> {
    pub closed spec fn keys_of(es: Seq<(String, V)>) -> Seq<Seq<char>> {
        es.map_values(|e: (String, V)| e.0@)
    }

    /// Keys in ascending order.
    pub closed spec fn keys(&self) -> Seq<Seq<char>> {
        Self::keys_of(self.entries@)
    }

    /// Values, in key order.
    pub closed spec fn vals(&self) -> Seq<V::V> {
        self.entries@.map_values(|e: (String, V)| e.1@)
    }

    #[verifier::type_invariant]
    closed spec fn inv(&self) -> bool {
        sorted_keys(self.keys())
    }

    /// Index of key `q`.
    pub closed spec fn index_of_key(&self, q: Seq<char>) -> int {
        choose|i: int| 0 <= i < self.keys().len() && self.keys()[i] == q
    }

    /// The map from keys to (viewed) values.
    pub closed spec fn view(&self) -> Map<Seq<char>, V::V> {
        Map::new(
            |q: Seq<char>| self.keys().contains(q),
            |q: Seq<char>| self.vals()[self.index_of_key(q)],
        )
    }

    pub closed spec fn len_spec(&self) -> nat {
        self.entries@.len()
    }

    pub proof fn lemma_shape(&self)
        requires
            sorted_keys(self.keys()),
        ensures
            self.keys().len() == self.vals().len(),
            self.keys().len() == self.len_spec(),
            sorted_keys(self.keys()),
            forall|i: int|
                0 <= i < self.keys().len() ==> #[trigger] self@.contains_key(self.keys()[i])
                    && self@[self.keys()[i]] == self.vals()[i],
            forall|q: Seq<char>| #[trigger]
                self@.contains_key(q) <==> self.keys().contains(q),
    {
        assert forall|i: int| 0 <= i < self.keys().len() implies #[trigger] self@.contains_key(
            self.keys()[i],
        ) && self@[self.keys()[i]] == self.vals()[i] by {
            let q = self.keys()[i];
            assert(self.keys()[i] == q);
            assert(self.keys().contains(q));
            assert(self@.dom().contains(q));
            let j = self.index_of_key(q);
            assert(0 <= j < self.keys().len() && self.keys()[j] == q);
            if j != i {
                if j < i {
                    assert(seq_lt(self.keys()[j], self.keys()[i]));
                } else {
                    assert(seq_lt(self.keys()[i], self.keys()[j]));
                }
                lemma_seq_lt_irrefl(q);
            }
            assert(self@[q] == self.vals()[self.index_of_key(q)]);
        }
    }

    /// As many values as keys.
    pub proof fn lemma_lens(&self)
        ensures
            self.keys().len() == self.vals().len(),
    {
    }

    pub fn new() -> (res: Self)
        ensures
            res@ == Map::<Seq<char>, V::V>::empty(),
            res.keys().len() == 0,
    {
        let res = StrMap { entries: Vec::new() };
        assert(res@ =~= Map::<Seq<char>, V::V>::empty());
        res
    }

    pub fn len(&self) -> (n: usize)
        ensures
            n == self.keys().len(),
            n == self@.len(),
    {
        proof {
            use_type_invariant(self);
            self.lemma_shape();
            self.lemma_len();
        }
        self.entries.len()
    }

    pub fn is_empty(&self) -> (b: bool)
        ensures
            b == (self@.len() == 0),
    {
        self.len() == 0
    }

    pub proof fn lemma_len(&self)
        requires
            sorted_keys(self.keys()),
        ensures
            self@.dom().finite(),
            self@.len() == self.keys().len(),
    {
        self.lemma_shape();
        let ks = self.keys();
        assert(ks.no_duplicates()) by {
            assert forall|i: int, j: int| 0 <= i < ks.len() && 0 <= j < ks.len() && i != j implies ks[i]
                != ks[j] by {
                if i < j {
                    lemma_seq_lt_asym(ks[i], ks[j]);
                } else {
                    lemma_seq_lt_asym(ks[j], ks[i]);
                }
            }
        }
        assert(self@.dom() =~= ks.to_set());
        ks.unique_seq_to_set();
    }

    /// Position of `k` among the keys.
    fn position(&self, k: &str) -> (res: Option<usize>)
        ensures
            res matches Some(i) ==> i < self.keys().len() && self.keys()[i as int] == k@,
            res is None ==> !self@.contains_key(k@),
    {
        proof {
            use_type_invariant(self);
            self.lemma_shape();
        }
        let mut i: usize = 0;
        while i < self.entries.len()
            invariant
                i <= self.entries@.len(),
                self.keys().len() == self.entries@.len(),
                forall|j: int| 0 <= j < i ==> self.keys()[j] != k@,
            decreases self.entries.len() - i,
        {
            let e = &self.entries[i];
            assert(self.keys()[i as int] == self.entries@[i as int].0@);
            if str_eq(e.0.as_str(), k) {
                return Some(i);
            }
            i += 1;
        }
        None
    }

    pub fn get(&self, k: &str) -> (res: Option<&V>)
        ensures
            res matches Some(v) ==> self@.contains_key(k@) && v@ == self@[k@],
            res is None ==> !self@.contains_key(k@),
    {
        proof {
            use_type_invariant(self);
            self.lemma_shape();
        }
        match self.position(k) {
            Some(i) => {
                assert(self.vals()[i as int] == self.entries@[i as int].1@);
                assert(self@.contains_key(self.keys()[i as int]));
                Some(&self.entries[i].1)
            },
            None => None,
        }
    }

    pub fn contains_key(&self, k: &str) -> (res: bool)
        ensures
            res == self@.contains_key(k@),
    {
        proof {
            use_type_invariant(self);
            self.lemma_shape();
        }
        self.position(k).is_some()
    }

    /// The `i`-th entry in key order.
    pub fn entry(&self, i: usize) -> (res: (&String, &V))
        requires
            i < self.keys().len(),
        ensures
            res.0@ == self.keys()[i as int],
            res.1@ == self.vals()[i as int],
    {
        proof {
            use_type_invariant(self);
            self.lemma_shape();
        }
        let e = &self.entries[i];
        (&e.0, &e.1)
    }

    pub fn insert(&mut self, k: String, v: V)
        ensures
            final(self)@ == old(self)@.insert(k@, v@),
    {
        proof {
            use_type_invariant(&*self);
            self.lemma_shape();
        }
        let ghost old_keys = self.keys();
        let ghost old_vals = self.vals();
        let ghost old_map = self@;
        // find the first key that is not below `k`
        let mut p: usize = 0;
        while p < self.entries.len() && str_lt(self.entries[p].0.as_str(), k.as_str())
            invariant
                p <= self.entries@.len(),
                old_keys == self.keys(),
                old_keys.len() == self.entries@.len(),
                forall|j: int| 0 <= j < p ==> seq_lt(#[trigger] old_keys[j], k@),
            decreases self.entries.len() - p,
        {
            assert(old_keys[p as int] == self.entries@[p as int].0@);
            p += 1;
        }
        if p < self.entries.len() && str_eq(self.entries[p].0.as_str(), k.as_str()) {
            let ghost kp = old_keys[p as int];
            assert(kp == self.entries@[p as int].0@);
            let ghost old_entries = self.entries@;
            let mut tmp = Vec::new();
            std::mem::swap(&mut tmp, &mut self.entries);
            tmp.set(p, (k, v));
            assert(Self::keys_of(tmp@) =~= old_keys);
            self.entries = tmp;
            proof {
                assert(self.keys() =~= old_keys);
                self.lemma_shape();
                assert(self.vals() =~= old_vals.update(p as int, v@));
                assert(self@ =~= old_map.insert(k@, v@)) by {
                    assert forall|q: Seq<char>| #[trigger] self@.contains_key(q) <==> old_map.insert(
                        k@,
                        v@,
                    ).contains_key(q) by {
                        if q == k@ {
                            assert(self.keys()[p as int] == q);
                        }
                    }
                    assert forall|q: Seq<char>| self@.contains_key(q) implies #[trigger] self@[q]
                        == old_map.insert(k@, v@)[q] by {
                        let j = self.index_of_key(q);
                        assert(self@[self.keys()[j]] == self.vals()[j]);
                        assert(old_map[old_keys[j]] == old_vals[j]);
                    }
                }
            }
        } else {
            proof {
                if p < old_keys.len() {
                    lemma_seq_lt_total(old_keys[p as int], k@);
                    assert(old_keys[p as int] == self.entries@[p as int].0@);
                    assert(seq_lt(k@, old_keys[p as int]));
                }
            }
            let ghost kv = k@;
            let ghost vv = v@;
            let mut tmp = Vec::new();
            std::mem::swap(&mut tmp, &mut self.entries);
            tmp.insert(p, (k, v));
            proof {
                let ks = Self::keys_of(tmp@);
                assert(ks =~= old_keys.insert(p as int, kv));
                assert(sorted_keys(ks)) by {
                    assert forall|i: int, j: int| 0 <= i < j < ks.len() implies seq_lt(
                        #[trigger] ks[i],
                        #[trigger] ks[j],
                    ) by {
                        if j < p {
                            assert(ks[i] == old_keys[i] && ks[j] == old_keys[j]);
                        } else if j == p {
                            assert(ks[i] == old_keys[i]);
                        } else if i == p {
                            assert(ks[j] == old_keys[j - 1]);
                            if j - 1 > p {
                                assert(seq_lt(old_keys[p as int], old_keys[j - 1]));
                                lemma_seq_lt_trans(kv, old_keys[p as int], old_keys[j - 1]);
                            }
                        } else if i < p {
                            assert(ks[i] == old_keys[i] && ks[j] == old_keys[j - 1]);
                            if i < j - 1 {
                            }
                        } else {
                            assert(ks[i] == old_keys[i - 1] && ks[j] == old_keys[j - 1]);
                        }
                    }
                }
            }
            self.entries = tmp;
            proof {
                let ks = self.keys();
                assert(ks =~= old_keys.insert(p as int, kv));
                assert(self.vals() =~= old_vals.insert(p as int, vv));
                self.lemma_shape();
                assert(self@ =~= old_map.insert(kv, vv)) by {
                    assert forall|q: Seq<char>| #[trigger] self@.contains_key(q) <==> old_map.insert(
                        kv,
                        vv,
                    ).contains_key(q) by {
                        if q == kv {
                            assert(ks[p as int] == q);
                        } else if old_map.contains_key(q) {
                            let j = choose|j: int| 0 <= j < old_keys.len() && old_keys[j] == q;
                            if j < p {
                                assert(ks[j] == q);
                            } else {
                                assert(ks[j + 1] == q);
                            }
                        } else if self@.contains_key(q) {
                            let j = choose|j: int| 0 <= j < ks.len() && ks[j] == q;
                            if j < p {
                                assert(old_keys[j] == q);
                            } else if j > p {
                                assert(old_keys[j - 1] == q);
                            }
                        }
                    }
                    assert forall|q: Seq<char>| self@.contains_key(q) implies #[trigger] self@[q]
                        == old_map.insert(kv, vv)[q] by {
                        let j = choose|j: int| 0 <= j < ks.len() && ks[j] == q;
                        assert(self@[ks[j]] == self.vals()[j]);
                        if j < p {
                            assert(old_map[old_keys[j]] == old_vals[j]);
                            assert(q != kv) by {
                                lemma_seq_lt_irrefl(kv);
                            }
                        } else if j > p {
                            assert(old_map[old_keys[j - 1]] == old_vals[j - 1]);
                            assert(q != kv) by {
                                lemma_seq_lt_irrefl(kv);
                            }
                        }
                    }
                }
            }
        }
    }
}


/// An ordered set of strings.
pub struct StrSet {
    map: StrMap<bool>,
}

impl StrSet {
    pub closed spec fn view(&self) -> Set<Seq<char>> {
        self.map@.dom()
    }

    /// Members in ascending order.
    pub closed spec fn members(&self) -> Seq<Seq<char>> {
        self.map.keys()
    }

    pub fn new() -> (res: Self)
        ensures
            res@ == Set::<Seq<char>>::empty(),
    {
        let res = StrSet { map: StrMap::new() };
        assert(res@ =~= Set::<Seq<char>>::empty());
        res
    }

    pub fn contains(&self, k: &str) -> (res: bool)
        ensures
            res == self@.contains(k@),
    {
        self.map.contains_key(k)
    }

    /// Adds `k`; the result says whether it was absent before.
    pub fn insert(&mut self, k: String) -> (added: bool)
        ensures
            final(self)@ == old(self)@.insert(k@),
            added == !old(self)@.contains(k@),
    {
        let added = !self.map.contains_key(k.as_str());
        self.map.insert(k, true);
        assert(self@ =~= old(self)@.insert(k@));
        added
    }

    pub fn len(&self) -> (n: usize)
        ensures
            n == self@.len(),
            self@.finite(),
    {
        proof {
            use_type_invariant(&self.map);
            self.map.lemma_len();
        }
        self.map.len()
    }

    /// The members in ascending order.
    pub fn to_vec(&self) -> (res: Vec<String>)
        ensures
            res@.map_values(|s: String| s@) == self.members(),
            sorted_keys(self.members()),
            forall|q: Seq<char>| #[trigger] self@.contains(q) <==> self.members().contains(q),
    {
        proof {
            use_type_invariant(&self.map);
            self.map.lemma_shape();
        }
        let n = self.map.len();
        let mut out: Vec<String> = Vec::new();
        let mut i: usize = 0;
        while i < n
            invariant
                i <= n == self.members().len(),
                out@.map_values(|s: String| s@) =~= self.members().take(i as int),
            decreases n - i,
        {
            let e = self.map.entry(i);
            let ghost prev = out@;
            out.push(e.0.clone());
            assert(self.members().take(i + 1) =~= self.members().take(i as int).push(
                self.members()[i as int],
            ));
            assert(out@ == prev.push(out@[i as int]));
            assert(out@.map_values(|s: String| s@) =~= self.members().take(i + 1));
            i += 1;
        }
        assert(self.members().take(n as int) =~= self.members());
        out
    }

    /// The `i`-th member in ascending order.
    pub fn member(&self, i: usize) -> (res: &String)
        requires
            i < self.members().len(),
        ensures
            res@ == self.members()[i as int],
    {
        self.map.entry(i).0
    }

    pub fn member_count(&self) -> (n: usize)
        ensures
            n == self.members().len(),
    {
        proof {
            use_type_invariant(&self.map);
            self.map.lemma_shape();
        }
        self.map.len()
    }
}

} // verus!
