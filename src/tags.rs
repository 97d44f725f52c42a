//! Key/value tags, with string equality.

use vstd::prelude::*;
use vstd::string::*;

verus! {

/// Character-wise equality of two string slices.
pub fn str_eq(a: &str, b: &str) -> (r: bool)
    ensures
        r == (a@ == b@),
{
    let n = a.unicode_len();
    if n != b.unicode_len() {
        return false;
    }
    let mut i: usize = 0;
    while i < n
        invariant
            n == a@.len(),
            n == b@.len(),
            i <= n,
            forall|j: int| 0 <= j < i ==> a@[j] == b@[j],
        decreases n - i,
    {
        if a.get_char(i) != b.get_char(i) {
            return false;
        }
        i = i + 1;
    }
    assert(a@ =~= b@);
    true
}

/// The free-form key/value tags of a way or a relation.
///
/// Keys are unique; a lookup finds the one entry with the given key.
#[derive(Debug)]
pub struct Tags {
    pairs: Vec<(String, String)>,
}

impl Tags {
    /// Index of the entry for key `k`, when there is one.
    pub closed spec fn key_at(self, i: int, k: Seq<char>) -> bool {
        0 <= i < self.pairs@.len() && self.pairs@[i].0@ == k
    }

    pub closed spec fn first_key_at(self, i: int, k: Seq<char>) -> bool {
        self.key_at(i, k) && forall|j: int| 0 <= j < i ==> !#[trigger] self.key_at(j, k)
    }

    pub closed spec fn has_key(self, k: Seq<char>) -> bool {
        exists|i: int| self.key_at(i, k)
    }

    pub closed spec fn value_of(self, k: Seq<char>) -> Seq<char>
        recommends
            self.has_key(k),
    {
        self.pairs@[choose|i: int| self.first_key_at(i, k)].1@
    }

    /// No two entries share a key.
    pub closed spec fn wf(self) -> bool {
        forall|i: int, j: int|
            0 <= i < self.pairs@.len() && 0 <= j < self.pairs@.len() && i != j ==> self.pairs@[i].0@
                != self.pairs@[j].0@
    }

    pub fn new() -> (r: Tags)
        ensures
            r.wf(),
            r@ == Map::<Seq<char>, Seq<char>>::empty(),
    {
        let r = Tags { pairs: Vec::new() };
        assert(r@ =~= Map::<Seq<char>, Seq<char>>::empty());
        r
    }

    proof fn lemma_first_unique(self, i: int, k: Seq<char>)
        requires
            self.first_key_at(i, k),
        ensures
            (choose|j: int| self.first_key_at(j, k)) == i,
    {
        let c = choose|j: int| self.first_key_at(j, k);
        assert(self.first_key_at(c, k));
        if c < i {
            assert(self.key_at(c, k));
        } else if c > i {
            assert(self.key_at(i, k));
        }
    }

    proof fn lemma_has_first(self, i: int, k: Seq<char>)
        requires
            self.key_at(i, k),
        ensures
            exists|m: int| self.first_key_at(m, k),
        decreases i,
    {
        if exists|j: int| 0 <= j < i && self.key_at(j, k) {
            let j = choose|j: int| 0 <= j < i && self.key_at(j, k);
            self.lemma_has_first(j, k);
        } else {
            assert(self.first_key_at(i, k));
        }
    }

    proof fn lemma_same_pairs(a: Tags, b: Tags)
        requires
            a.pairs@ == b.pairs@,
        ensures
            a@ == b@,
    {
        assert forall|k: Seq<char>|
            #[trigger] a@.contains_key(k) == b@.contains_key(k) && (a@.contains_key(k) ==> a@[k]
                == b@[k]) by {
            if a.has_key(k) {
                let i = choose|i: int| a.key_at(i, k);
                a.lemma_has_first(i, k);
                let c = choose|c: int| a.first_key_at(c, k);
                assert(b.key_at(c, k));
                assert forall|j: int| 0 <= j < c implies !#[trigger] b.key_at(j, k) by {
                    assert(!a.key_at(j, k));
                }
                a.lemma_first_unique(c, k);
                b.lemma_first_unique(c, k);
                assert(b.key_at(c, k));
            } else {
                assert forall|j: int| !#[trigger] b.key_at(j, k) by {
                    assert(!a.key_at(j, k));
                }
            }
        }
        assert(a@ =~= b@);
    }

    /// `b` is `a` with the entry for `k0` set to `v`, the other entries untouched.
    proof fn lemma_update(a: Tags, b: Tags, k0: Seq<char>, p: int, v: Seq<char>)
        requires
            b.first_key_at(p, k0),
            b.pairs@[p].1@ == v,
            forall|j: int, k: Seq<char>| k != k0 ==> (#[trigger] b.key_at(j, k) == a.key_at(j, k)),
            forall|j: int|
                0 <= j < a.pairs@.len() && a.pairs@[j].0@ != k0 ==> j < b.pairs@.len()
                    && #[trigger] b.pairs@[j] == a.pairs@[j],
        ensures
            b@ == a@.insert(k0, v),
    {
        b.lemma_first_unique(p, k0);
        assert forall|k: Seq<char>|
            #[trigger] b@.contains_key(k) == a@.insert(k0, v).contains_key(k) && (b@.contains_key(k)
                ==> b@[k] == a@.insert(k0, v)[k]) by {
            if k != k0 {
                if a.has_key(k) {
                    let i = choose|i: int| a.key_at(i, k);
                    a.lemma_has_first(i, k);
                    let c = choose|c: int| a.first_key_at(c, k);
                    assert(b.key_at(c, k));
                    assert forall|j: int| 0 <= j < c implies !#[trigger] b.key_at(j, k) by {
                        assert(!a.key_at(j, k));
                    }
                    b.lemma_first_unique(c, k);
                    assert(b.has_key(k));
                } else {
                    assert forall|j: int| !#[trigger] b.key_at(j, k) by {
                        assert(!a.key_at(j, k));
                    }
                }
            } else {
                assert(b.key_at(p, k0));
            }
        }
        assert(b@ =~= a@.insert(k0, v));
    }

    /// With unique keys, the entry found for a key is the one at any index holding it.
    proof fn lemma_wf_lookup(self, i: int, k: Seq<char>)
        requires
            self.wf(),
            self.key_at(i, k),
        ensures
            self.has_key(k),
            self.value_of(k) == self.pairs@[i].1@,
    {
        assert forall|j: int| 0 <= j < i implies !#[trigger] self.key_at(j, k) by {}
        self.lemma_first_unique(i, k);
    }

    /// Position of the entry for `k`, scanning from the front.
    fn find(&self, k: &str) -> (r: Option<usize>)
        ensures
            r is Some <==> self.has_key(k@),
            r matches Some(i) ==> self.first_key_at(i as int, k@) && self.value_of(k@) == self.pairs@[i as int].1@,
    {
        let mut i: usize = 0;
        while i < self.pairs.len()
            invariant
                i <= self.pairs@.len(),
                forall|j: int| 0 <= j < i ==> !#[trigger] self.key_at(j, k@),
            decreases self.pairs@.len() - i,
        {
            if str_eq(self.pairs[i].0.as_str(), k) {
                proof {
                    self.lemma_first_unique(i as int, k@);
                }
                return Some(i);
            }
            i = i + 1;
        }
        None
    }

    /// The value stored under `k`.
    pub fn get(&self, k: &str) -> (r: Option<&String>)
        ensures
            r is Some <==> self@.contains_key(k@),
            r matches Some(v) ==> v@ == self@[k@],
    {
        match self.find(k) {
            Some(i) => Some(&self.pairs[i].1),
            None => None,
        }
    }

    pub fn contains_key(&self, k: &str) -> (r: bool)
        ensures
            r == self@.contains_key(k@),
    {
        self.find(k).is_some()
    }

    /// Whether `k` is present with exactly the value `v`.
    pub fn has_value(&self, k: &str, v: &str) -> (r: bool)
        ensures
            r == (self@.contains_key(k@) && self@[k@] == v@),
    {
        match self.get(k) {
            Some(s) => str_eq(s.as_str(), v),
            None => false,
        }
    }

    /// Whether no entry is left.
    pub fn is_empty(&self) -> (r: bool)
        ensures
            r == (self@ == Map::<Seq<char>, Seq<char>>::empty()),
    {
        if self.pairs.len() == 0 {
            assert(self@ =~= Map::<Seq<char>, Seq<char>>::empty());
            true
        } else {
            assert(self.key_at(0, self.pairs@[0].0@));
            assert(self@.contains_key(self.pairs@[0].0@));
            false
        }
    }

    /// A copy holding the same entries.
    pub fn copied(&self) -> (r: Tags)
        ensures
            r@ == self@,
            self.wf() ==> r.wf(),
    {
        let mut pairs: Vec<(String, String)> = Vec::new();
        let mut i: usize = 0;
        while i < self.pairs.len()
            invariant
                i <= self.pairs@.len(),
                pairs@ == self.pairs@.take(i as int),
            decreases self.pairs@.len() - i,
        {
            let k = self.pairs[i].0.clone();
            let v = self.pairs[i].1.clone();
            pairs.push((k, v));
            i = i + 1;
            assert(pairs@ =~= self.pairs@.take(i as int));
        }
        assert(pairs@ =~= self.pairs@);
        let r = Tags { pairs };
        proof {
            Tags::lemma_same_pairs(r, *self);
        }
        r
    }

    /// Takes out the entry for `k`, and returns its value.
    pub fn remove(&mut self, k: &str) -> (r: Option<String>)
        requires
            old(self).wf(),
        ensures
            final(self).wf(),
            final(self)@ == old(self)@.remove(k@),
            r is Some <==> old(self)@.contains_key(k@),
            r matches Some(v) ==> v@ == old(self)@[k@],
    {
        let ghost a = *self;
        match self.find(k) {
            None => {
                assert(self@ =~= a@.remove(k@));
                None
            },
            Some(i) => {
                let (_key, v) = self.pairs.remove(i);
                proof {
                    assert(self.pairs@ == a.pairs@.remove(i as int));
                    assert forall|x: int, y: int|
                        0 <= x < self.pairs@.len() && 0 <= y < self.pairs@.len() && x != y implies self.pairs@[x].0@
                        != self.pairs@[y].0@ by {
                        let xa = if x < i { x } else { x + 1 };
                        let ya = if y < i { y } else { y + 1 };
                        assert(self.pairs@[x] == a.pairs@[xa]);
                        assert(self.pairs@[y] == a.pairs@[ya]);
                    }
                    assert forall|kk: Seq<char>|
                        #[trigger] self@.contains_key(kk) == a@.remove(k@).contains_key(kk) && (
                        self@.contains_key(kk) ==> self@[kk] == a@.remove(k@)[kk]) by {
                        if self.has_key(kk) {
                            let j = choose|j: int| self.key_at(j, kk);
                            let ja = if j < i { j } else { j + 1 };
                            assert(self.pairs@[j] == a.pairs@[ja]);
                            assert(a.key_at(ja, kk));
                            if kk == k@ {
                                assert(a.key_at(i as int, k@));
                            }
                            a.lemma_wf_lookup(ja, kk);
                            self.lemma_wf_lookup(j, kk);
                        }
                        if kk != k@ && a.has_key(kk) {
                            let ja = choose|ja: int| a.key_at(ja, kk);
                            assert(ja != i);
                            let j = if ja < i { ja } else { ja - 1 };
                            assert(self.pairs@[j] == a.pairs@[ja]);
                            assert(self.key_at(j, kk));
                        }
                    }
                    assert(self@ =~= a@.remove(k@));
                }
                Some(v)
            },
        }
    }

    /// Sets `k` to `v`, replacing any earlier value.
    pub fn insert(&mut self, k: String, v: String)
        requires
            old(self).wf(),
        ensures
            final(self).wf(),
            final(self)@ == old(self)@.insert(k@, v@),
    {
        let ghost a = *self;
        match self.find(k.as_str()) {
            Some(i) => {
                let ghost kv = k@;
                let ghost vv = v@;
                self.pairs.set(i, (k, v));
                proof {
                    assert forall|j: int, kk: Seq<char>| kk != kv implies (#[trigger] self.key_at(j, kk)
                        == a.key_at(j, kk)) by {
                        if j == i {
                            assert(a.key_at(j, kv));
                        }
                    }
                    assert forall|j: int| 0 <= j < i implies !#[trigger] self.key_at(j, kv) by {
                        assert(!a.key_at(j, kv));
                    }
                    Tags::lemma_update(a, *self, kv, i as int, vv);
                    assert forall|j: int| 0 <= j < self.pairs@.len() implies #[trigger] self.pairs@[j].0@
                        == a.pairs@[j].0@ by {
                        if j == i {
                            assert(a.key_at(j, kv));
                        }
                    }
                }
            },
            None => {
                let ghost kv = k@;
                let ghost vv = v@;
                let ghost n = self.pairs@.len() as int;
                self.pairs.push((k, v));
                proof {
                    assert forall|j: int| 0 <= j < n implies !#[trigger] self.key_at(j, kv) by {
                        assert(!a.key_at(j, kv));
                    }
                    assert forall|j: int, kk: Seq<char>| kk != kv implies (#[trigger] self.key_at(j, kk)
                        == a.key_at(j, kk)) by {}
                    Tags::lemma_update(a, *self, kv, n, vv);
                    assert forall|j: int| 0 <= j < n implies #[trigger] self.pairs@[j].0@ != kv by {
                        assert(!a.key_at(j, kv));
                    }
                }
            },
        }
    }
}

impl View for Tags {
    type V = Map<Seq<char>, Seq<char>>;

    open spec fn view(&self) -> Map<Seq<char>, Seq<char>> {
        Map::new(|k: Seq<char>| self.has_key(k), |k: Seq<char>| self.value_of(k))
    }
}

} // verus!
