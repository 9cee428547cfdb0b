//! A string-keyed map that also carries its key list, so callers can walk
//! every entry; the view is the plain mathematical map.

use vstd::prelude::*;
use vstd::string::StrSliceExecFns;

verus! {

/// Character-wise string equality.
pub fn str_eq(a: &str, b: &str) -> (r: bool)
    ensures
        r == (a@ == b@),
{
    let n = a.unicode_len();
    if n != b.unicode_len() {
        proof {
            assert(a@ != b@);
        }
        return false;
    }
    let mut i: usize = 0;
    while i < n
        invariant
            i <= n,
            n == a@.len(),
            n == b@.len(),
            forall|j: int| 0 <= j < i ==> a@[j] == b@[j],
        decreases n - i,
    {
        if a.get_char(i) != b.get_char(i) {
            proof {
                assert(a@[i as int] != b@[i as int]);
            }
            return false;
        }
        i = i + 1;
    }
    proof {
        assert(a@ =~= b@);
    }
    true
}

/// `p` is a leading substring of `s`.
pub open spec fn str_has_prefix(s: Seq<char>, p: Seq<char>) -> bool {
    p.len() <= s.len() && s.take(p.len() as int) == p
}

/// Character-wise check that `s` starts with `p`.
pub fn starts_with_str(s: &str, p: &str) -> (r: bool)
    ensures
        r == str_has_prefix(s@, p@),
{
    let sn = s.unicode_len();
    let pn = p.unicode_len();
    if pn > sn {
        return false;
    }
    let mut i: usize = 0;
    while i < pn
        invariant
            i <= pn,
            pn == p@.len(),
            sn == s@.len(),
            pn <= sn,
            forall|j: int| 0 <= j < i ==> s@[j] == p@[j],
        decreases pn - i,
    {
        if s.get_char(i) != p.get_char(i) {
            proof {
                assert(s@[i as int] != p@[i as int]);
                if s@.take(p@.len() as int) == p@ {
                    assert(s@.take(p@.len() as int)[i as int] == s@[i as int]);
                    assert(false);
                }
            }
            return false;
        }
        i = i + 1;
    }
    proof {
        assert(s@.take(p@.len() as int) =~= p@);
    }
    true
}

/// A hash map keyed by strings, with a mirrored key list for iteration.
#[verifier::reject_recursive_types(V)]
pub struct StrMap<V> {
    map: vstd::hash_map::StringHashMap<V>,
    keys: Vec<String>,
}

impl<V> View for StrMap<V> {
    type V = Map<Seq<char>, V>;

    closed spec fn view(&self) -> Map<Seq<char>, V> {
        self.map@
    }
}

impl<V> StrMap<V> {
    /// The views of the key list, in list order.
    pub closed spec fn key_seq(&self) -> Seq<Seq<char>> {
        Seq::new(self.keys@.len(), |i: int| self.keys@[i]@)
    }

    /// The key list names each key of the map exactly once.
    pub closed spec fn wf(&self) -> bool {
        &&& (forall|i: int, j: int|
            0 <= i < j < self.keys@.len() ==> (#[trigger] self.keys@[i]@) != (
            #[trigger] self.keys@[j]@))
        &&& (forall|i: int|
            0 <= i < self.keys@.len() ==> self.map@.dom().contains(#[trigger] self.keys@[i]@))
        &&& (forall|p: Seq<char>|
            #[trigger] self.map@.dom().contains(p) ==> exists|i: int|
                0 <= i < self.keys@.len() && #[trigger] self.keys@[i]@ == p)
    }

    /// What `wf` says, over `key_seq` for callers.
    pub proof fn lemma_key_seq(&self)
        requires
            self.wf(),
        ensures
            forall|i: int, j: int|
                0 <= i < j < self.key_seq().len() ==> (#[trigger] self.key_seq()[i]) != (
                #[trigger] self.key_seq()[j]),
            forall|i: int|
                0 <= i < self.key_seq().len() ==> self@.dom().contains(#[trigger] self.key_seq()[i]),
            forall|p: Seq<char>|
                #[trigger] self@.dom().contains(p) ==> exists|i: int|
                    0 <= i < self.key_seq().len() && #[trigger] self.key_seq()[i] == p,
    {
        assert forall|p: Seq<char>| #[trigger] self@.dom().contains(p) implies exists|i: int|
            0 <= i < self.key_seq().len() && #[trigger] self.key_seq()[i] == p by {
            let i = choose|i: int| 0 <= i < self.keys@.len() && (#[trigger] self.keys@[i]@) == p;
            assert(self.key_seq()[i] == p);
        }
    }

    /// The domain is finite: it is exactly the set of listed keys.
    pub proof fn lemma_dom_finite(&self)
        requires
            self.wf(),
        ensures
            self@.dom().finite(),
            self@.dom().len() <= self.key_seq().len(),
    {
        broadcast use vstd::seq_lib::seq_to_set_is_finite;

        self.lemma_key_seq();
        assert(self.key_seq().no_duplicates()) by {
            assert forall|i: int, j: int|
                0 <= i < self.key_seq().len() && 0 <= j < self.key_seq().len() && i != j
                implies self.key_seq()[i] != self.key_seq()[j] by {
                if i < j {
                } else {
                    assert(self.key_seq()[j] != self.key_seq()[i]);
                }
            }
        }
        assert(self@.dom() =~= self.key_seq().to_set()) by {
            assert forall|p: Seq<char>| self@.dom().contains(p)
                implies self.key_seq().to_set().contains(p) by {
                let i = choose|i: int|
                    0 <= i < self.key_seq().len() && (#[trigger] self.key_seq()[i]) == p;
                assert(self.key_seq().contains(p));
            }
        }
        self.key_seq().unique_seq_to_set();
    }

    pub fn new() -> (r: Self)
        ensures
            r.wf(),
            r@ == Map::<Seq<char>, V>::empty(),
            r.key_seq() == Seq::<Seq<char>>::empty(),
    {
        let r = StrMap { map: vstd::hash_map::StringHashMap::new(), keys: Vec::new() };
        proof {
            assert(r.key_seq() =~= Seq::<Seq<char>>::empty());
        }
        r
    }

    pub fn len(&self) -> (n: usize)
        ensures
            n == self@.len(),
    {
        proof {
            broadcast use vstd::hash_map::axiom_string_hash_map_spec_len;

        }
        self.map.len()
    }

    pub fn contains_key(&self, k: &str) -> (r: bool)
        ensures
            r == self@.dom().contains(k@),
    {
        self.map.contains_key(k)
    }

    pub fn get<'a>(&'a self, k: &str) -> (r: Option<&'a V>)
        ensures
            match r {
                Some(v) => self@.dom().contains(k@) && *v == self@[k@],
                None => !self@.dom().contains(k@),
            },
    {
        self.map.get(k)
    }

    pub fn insert(&mut self, k: String, v: V)
        requires
            old(self).wf(),
        ensures
            final(self).wf(),
            final(self)@ == old(self)@.insert(k@, v),
    {
        let ghost old_keys = self.keys@;
        if !self.map.contains_key(k.as_str()) {
            self.keys.push(k.clone());
        }
        self.map.insert(k, v);
        proof {
            let kv = k@;
            assert forall|p: Seq<char>| #[trigger] self.map@.dom().contains(p)
                implies exists|i: int|
                0 <= i < self.keys@.len() && #[trigger] self.keys@[i]@ == p by {
                if p == kv && !old(self).map@.dom().contains(p) {
                    assert(self.keys@[self.keys@.len() - 1]@ == p);
                } else {
                    assert(old(self).map@.dom().contains(p));
                    let i = choose|i: int|
                        0 <= i < old_keys.len() && (#[trigger] old_keys[i]@) == p;
                    assert(self.keys@[i]@ == p);
                }
            }
            assert forall|i: int, j: int| 0 <= i < j < self.keys@.len() implies (
            #[trigger] self.keys@[i]@) != (#[trigger] self.keys@[j]@) by {
                if j == self.keys@.len() - 1 && self.keys@.len() > old_keys.len() {
                    assert(old(self).map@.dom().contains(old_keys[i]@));
                }
            }
        }
    }

    pub fn remove(&mut self, k: &str)
        requires
            old(self).wf(),
        ensures
            final(self).wf(),
            final(self)@ == old(self)@.remove(k@),
    {
        let ghost old_keys = self.keys@;
        let mut found: Option<usize> = None;
        let mut i: usize = 0;
        while i < self.keys.len() && found.is_none()
            invariant
                i <= self.keys@.len(),
                self.keys@ == old_keys,
                found is None ==> forall|j: int| 0 <= j < i ==> (#[trigger] old_keys[j]@) != k@,
                found matches Some(ix) ==> ix < old_keys.len() && old_keys[ix as int]@ == k@,
            decreases self.keys@.len() - i,
        {
            if str_eq(self.keys[i].as_str(), k) {
                found = Some(i);
            }
            i = i + 1;
        }
        match found {
            Some(ix) => {
                self.keys.swap_remove(ix);
                self.map.remove(k);
                proof {
                    let kv = k@;
                    assert(old_keys[ix as int]@ == kv);
                    assert forall|p: Seq<char>| #[trigger] self.map@.dom().contains(p)
                        implies exists|j: int|
                        0 <= j < self.keys@.len() && #[trigger] self.keys@[j]@ == p by {
                        assert(old(self).map@.dom().contains(p));
                        let j = choose|j: int|
                            0 <= j < old_keys.len() && (#[trigger] old_keys[j]@) == p;
                        assert(old_keys[j]@ == p && p != kv);
                        assert(j != ix);
                        if j == old_keys.len() - 1 {
                            assert(self.keys@[ix as int]@ == p);
                        } else {
                            assert(self.keys@[j]@ == p);
                        }
                    }
                    assert forall|a: int, b: int| 0 <= a < b < self.keys@.len() implies (
                    #[trigger] self.keys@[a]@) != (#[trigger] self.keys@[b]@) by {
                        if a == ix {
                            assert(self.keys@[a] == old_keys[old_keys.len() - 1]);
                        }
                        if b == ix {
                            assert(self.keys@[b] == old_keys[old_keys.len() - 1]);
                        }
                    }
                    assert forall|a: int| 0 <= a < self.keys@.len()
                        implies self.map@.dom().contains(#[trigger] self.keys@[a]@) by {
                        if a == ix {
                            assert(self.keys@[a] == old_keys[old_keys.len() - 1]);
                            assert(old_keys[old_keys.len() - 1]@ != kv);
                        } else {
                            assert(old_keys[a]@ != kv);
                        }
                    }
                }
            },
            None => {
                self.map.remove(k);
                proof {
                    // the key was absent, so the map is unchanged in content
                    if old(self).map@.dom().contains(k@) {
                        let j = choose|j: int|
                            0 <= j < old_keys.len() && (#[trigger] old_keys[j]@) == k@;
                        assert(false);
                    }
                    assert forall|p: Seq<char>| #[trigger] self.map@.dom().contains(p)
                        implies exists|j: int|
                        0 <= j < self.keys@.len() && #[trigger] self.keys@[j]@ == p by {
                        assert(old(self).map@.dom().contains(p));
                        let j = choose|j: int|
                            0 <= j < old_keys.len() && (#[trigger] old_keys[j]@) == p;
                        assert(self.keys@[j]@ == p);
                    }
                }
            },
        }
    }

    pub fn clear(&mut self)
        ensures
            final(self).wf(),
            final(self)@ == Map::<Seq<char>, V>::empty(),
            final(self).key_seq() == Seq::<Seq<char>>::empty(),
    {
        self.map.clear();
        self.keys.clear();
        proof {
            assert(self.key_seq() =~= Seq::<Seq<char>>::empty());
        }
    }

    /// Number of keys in the key list.
    pub fn key_count(&self) -> (n: usize)
        ensures
            n == self.key_seq().len(),
    {
        self.keys.len()
    }

    /// The `i`-th key of the key list.
    pub fn key_at(&self, i: usize) -> (k: &String)
        requires
            i < self.key_seq().len(),
        ensures
            k@ == self.key_seq()[i as int],
    {
        &self.keys[i]
    }
}

} // verus!
