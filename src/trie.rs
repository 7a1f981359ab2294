//! A prefix tree over geohash keys that maps each full key to a waypoint index.
use vstd::prelude::*;

verus! {

broadcast use vstd::std_specs::vec::group_vec_axioms;

/// A node of the prefix tree. The root stands for the empty prefix; each child
/// extends its parent's prefix by one character, and a node holds the index
/// stored under the key that leads to it, if any.
pub struct Trie {
    children: Vec<(char, Trie)>,
    waypoint_index: Option<usize>,
}

/// Whether `key` starts with `prefix`.
pub open spec fn has_prefix(key: Seq<char>, prefix: Seq<char>) -> bool {
    prefix.len() <= key.len() && key.subrange(0, prefix.len() as int) == prefix
}

/// The indices stored under keys that start with `prefix`.
pub open spec fn indices_with_prefix(m: Map<Seq<char>, usize>, prefix: Seq<char>) -> Set<usize> {
    Set::new(|v: usize| exists|k: Seq<char>| m.contains_key(k) && has_prefix(k, prefix)
        && m[k] == v)
}

spec fn has_child(cs: Seq<(char, Trie)>, c: char) -> bool {
    exists|i: int| 0 <= i < cs.len() && cs[i].0 == c
}

spec fn child_at(cs: Seq<(char, Trie)>, c: char) -> int {
    choose|i: int| 0 <= i < cs.len() && cs[i].0 == c
}

spec fn children_values(cs: Seq<(char, Trie)>, n: int) -> Set<usize>
    decreases n,
{
    if n <= 0 {
        Set::empty()
    } else {
        children_values(cs, n - 1).union(cs[n - 1].1.values())
    }
}

spec fn option_set(o: Option<usize>) -> Set<usize> {
    match o {
        Some(v) => set![v],
        None => Set::empty(),
    }
}

proof fn lemma_children_values(cs: Seq<(char, Trie)>, n: int, v: usize)
    requires
        0 <= n <= cs.len(),
    ensures
        children_values(cs, n).contains(v) <==> exists|i: int|
            0 <= i < n && (#[trigger] cs[i]).1.values().contains(v),
    decreases n,
{
    if n > 0 {
        lemma_children_values(cs, n - 1, v);
        if children_values(cs, n).contains(v) && !children_values(cs, n - 1).contains(v) {
            assert(cs[n - 1].1.values().contains(v));
        }
    }
}

spec fn distinct_chars(cs: Seq<(char, Trie)>) -> bool {
    forall|i: int, j: int| 0 <= i < j < cs.len() ==> cs[i].0 != cs[j].0
}

impl Trie {
    /// What the subtree stores under `key`, read from this node.
    spec fn lookup(&self, key: Seq<char>) -> Option<usize>
        decreases key.len(),
    {
        if key.len() == 0 {
            self.waypoint_index
        } else if has_child(self.children@, key[0]) {
            self.children@[child_at(self.children@, key[0])].1.lookup(key.drop_first())
        } else {
            None
        }
    }

    /// Every index stored in the subtree.
    spec fn values(&self) -> Set<usize> {
        Set::new(|v: usize| exists|k: Seq<char>| self.lookup(k) == Some(v))
    }

    /// The keys held, each with its index.
    pub closed spec fn view(&self) -> Map<Seq<char>, usize> {
        Map::new(|k: Seq<char>| self.lookup(k) is Some, |k: Seq<char>| self.lookup(k)->Some_0)
    }

    /// No two children of a node share a character.
    pub closed spec fn wf(&self) -> bool
        decreases self,
    {
        &&& distinct_chars(self.children@)
        &&& forall|i: int|
            0 <= i < self.children@.len() ==> (#[trigger] self.children@[i]).1.wf()
    }

    /// An empty tree.
    pub fn new() -> (r: Self)
        ensures
            r.wf(),
            r.view() == Map::<Seq<char>, usize>::empty(),
    {
        let r = Trie { waypoint_index: None, children: Vec::new() };
        assert(r.view() =~= Map::<Seq<char>, usize>::empty()) by {
            assert forall|k: Seq<char>| !(#[trigger] r.lookup(k) is Some) by {
                if k.len() > 0 {
                    assert(!has_child(r.children@, k[0]));
                }
            }
        }
        r
    }

    fn find_child(&self, c: char) -> (r: Option<usize>)
        ensures
            match r {
                Some(i) => i < self.children@.len() && self.children@[i as int].0 == c,
                None => !has_child(self.children@, c),
            },
    {
        let mut i: usize = 0;
        while i < self.children.len()
            invariant
                i <= self.children@.len(),
                forall|j: int| 0 <= j < i ==> self.children@[j].0 != c,
            decreases self.children@.len() - i,
        {
            if self.children[i].0 == c {
                return Some(i);
            }
            i = i + 1;
        }
        None
    }

    proof fn lemma_child_at(&self, i: int)
        requires
            distinct_chars(self.children@),
            0 <= i < self.children@.len(),
        ensures
            has_child(self.children@, self.children@[i].0),
            child_at(self.children@, self.children@[i].0) == i,
    {
        let c = self.children@[i].0;
        assert(has_child(self.children@, c));
        let j = child_at(self.children@, c);
        assert(j == i);
    }

    /// Stores `idx` under the rest of `key` from character `i` on.
    fn insert_from(&mut self, key: &str, i: usize, idx: usize)
        requires
            old(self).wf(),
            i <= key@.len(),
        ensures
            final(self).wf(),
            forall|k: Seq<char>|
                #[trigger] final(self).lookup(k) == if k == key@.subrange(i as int,
                    key@.len() as int) {
                    Some(idx)
                } else {
                    old(self).lookup(k)
                },
        decreases key@.len() - i,
    {
        let ghost rest = key@.subrange(i as int, key@.len() as int);
        if i == key.unicode_len() {
            self.waypoint_index = Some(idx);
            assert forall|k: Seq<char>|
                #[trigger] self.lookup(k) == if k == rest { Some(idx) } else { old(self).lookup(k)
                    } by {
                if k.len() > 0 {
                    assert(k != rest);
                } else {
                    assert(k =~= rest);
                }
            }
            return;
        }
        let c = key.get_char(i);
        let ghost before = self.children@;
        let pos = match self.find_child(c) {
            Some(p) => p,
            None => {
                let fresh = Trie::new();
                self.children.push((c, fresh));
                proof {
                    assert(self.children@ == before.push((c, fresh)));
                    assert forall|k: Seq<char>| #[trigger] self.lookup(k) == old(self).lookup(k) by
                        {
                        if k.len() > 0 {
                            if k[0] == c {
                                assert(!has_child(before, c));
                                assert(self.children@[before.len() as int].0 == c);
                                assert(has_child(self.children@, c));
                                let j = child_at(self.children@, c);
                                assert(j == before.len()) by {
                                    if j < before.len() {
                                        assert(before[j].0 == c);
                                    }
                                }
                                assert(!fresh.view().contains_key(k.drop_first()));
                            } else if has_child(self.children@, k[0]) {
                                let j = child_at(self.children@, k[0]);
                                assert(j < before.len());
                                assert(has_child(before, k[0]));
                                self.lemma_child_at(j);
                                assert(old(self).children@[j].0 == k[0]);
                                old(self).lemma_child_at(j);
                            } else {
                                assert(!has_child(before, k[0])) by {
                                    if has_child(before, k[0]) {
                                        let j = child_at(before, k[0]);
                                        assert(self.children@[j].0 == k[0]);
                                    }
                                }
                            }
                        }
                    }
                }
                self.children.len() - 1
            },
        };
        let ghost mid = *self;
        assert(forall|k: Seq<char>| #[trigger] mid.lookup(k) == old(self).lookup(k));
        let (ch, mut child) = self.children.remove(pos);
        let ghost child_before = child;
        child.insert_from(key, i + 1, idx);
        self.children.insert(pos, (ch, child));
        proof {
            assert(self.children@ =~= mid.children@.update(pos as int, (c, child)));
            assert(rest =~= seq![c] + key@.subrange(i + 1, key@.len() as int));
            assert forall|k: Seq<char>|
                #[trigger] self.lookup(k) == if k == rest { Some(idx) } else { old(self).lookup(k)
                    } by {
                if k.len() > 0 {
                    assert(mid.lookup(k) == old(self).lookup(k));
                    if k[0] == c {
                        self.lemma_child_at(pos as int);
                        mid.lemma_child_at(pos as int);
                        assert(self.lookup(k) == child.lookup(k.drop_first()));
                        assert(mid.lookup(k) == child_before.lookup(k.drop_first()));
                        if k == rest {
                            assert(k.drop_first() =~= key@.subrange(i + 1, key@.len() as int));
                        } else {
                            assert(k.drop_first() != key@.subrange(i + 1, key@.len() as int)) by {
                                if k.drop_first() == key@.subrange(i + 1, key@.len() as int) {
                                    assert(k =~= rest);
                                }
                            }
                        }
                    } else {
                        assert(k != rest);
                        if has_child(self.children@, k[0]) {
                            let j = child_at(self.children@, k[0]);
                            self.lemma_child_at(j);
                            mid.lemma_child_at(j);
                        } else {
                            assert(!has_child(mid.children@, k[0])) by {
                                if has_child(mid.children@, k[0]) {
                                    let j = child_at(mid.children@, k[0]);
                                    assert(self.children@[j].0 == k[0]);
                                }
                            }
                        }
                    }
                } else {
                    assert(k != rest);
                    assert(mid.lookup(k) == old(self).lookup(k));
                }
            }
        }
    }
}

impl Trie {
    proof fn lemma_values_split(&self)
        requires
            self.wf(),
        ensures
            self.values() == option_set(self.waypoint_index).union(
                children_values(self.children@, self.children@.len() as int),
            ),
    {
        let cs = self.children@;
        let rhs = option_set(self.waypoint_index).union(children_values(cs, cs.len() as int));
        assert forall|v: usize| self.values().contains(v) <==> rhs.contains(v) by {
            lemma_children_values(cs, cs.len() as int, v);
            if self.values().contains(v) {
                let k = choose|k: Seq<char>| self.lookup(k) == Some(v);
                if k.len() > 0 {
                    let j = child_at(cs, k[0]);
                    assert(cs[j].1.lookup(k.drop_first()) == Some(v));
                    assert(cs[j].1.values().contains(v));
                }
            }
            if rhs.contains(v) && !option_set(self.waypoint_index).contains(v) {
                let i = choose|i: int| 0 <= i < cs.len()
                    && (#[trigger] cs[i]).1.values().contains(v);
                let t = choose|t: Seq<char>| cs[i].1.lookup(t) == Some(v);
                let k = seq![cs[i].0] + t;
                self.lemma_child_at(i);
                assert(k.drop_first() =~= t);
                assert(self.lookup(k) == Some(v));
            }
            if option_set(self.waypoint_index).contains(v) {
                assert(self.lookup(Seq::empty()) == Some(v));
            }
        }
        assert(self.values() =~= rhs);
    }

    /// Appends to `waypoints` every index stored in this subtree, depth first.
    fn collect_waypoints_recursive(&self, waypoints: &mut Vec<usize>)
        requires
            self.wf(),
        ensures
            final(waypoints)@.to_set() == old(waypoints)@.to_set().union(self.values()),
        decreases self,
    {
        proof {
            self.lemma_values_split();
        }
        if let Some(w) = self.waypoint_index {
            waypoints.push(w);
            assert forall|a: usize| #[trigger] waypoints@.contains(a)
                <==> (old(waypoints)@.contains(a) || a == w) by {
                if old(waypoints)@.contains(a) {
                    let j = choose|j: int| 0 <= j < old(waypoints)@.len()
                        && old(waypoints)@[j] == a;
                    assert(waypoints@[j] == a);
                }
                if a == w {
                    assert(waypoints@[old(waypoints)@.len() as int] == w);
                }
                if waypoints@.contains(a) && a != w {
                    let j = choose|j: int| 0 <= j < waypoints@.len() && waypoints@[j] == a;
                    assert(old(waypoints)@[j] == a);
                }
            }
        }
        assert(waypoints@.to_set() =~=
            old(waypoints)@.to_set().union(option_set(self.waypoint_index)));
        let mut i: usize = 0;
        while i < self.children.len()
            invariant
                self.wf(),
                i <= self.children@.len(),
                waypoints@.to_set() == old(waypoints)@.to_set().union(
                    option_set(self.waypoint_index),
                ).union(children_values(self.children@, i as int)),
            decreases self.children@.len() - i,
        {
            assert(self.children@[i as int].1.wf());
            self.children[i].1.collect_waypoints_recursive(waypoints);
            i = i + 1;
            assert(waypoints@.to_set() =~= old(waypoints)@.to_set().union(
                option_set(self.waypoint_index),
            ).union(children_values(self.children@, i as int)));
        }
        assert(waypoints@.to_set() =~= old(waypoints)@.to_set().union(self.values()));
    }

    /// Stores `waypoint_index` under the key `geohash`, replacing what it held.
    pub fn insert(&mut self, geohash: &str, waypoint_index: usize)
        requires
            old(self).wf(),
        ensures
            final(self).wf(),
            final(self).view() == old(self).view().insert(geohash@, waypoint_index),
    {
        self.insert_from(geohash, 0, waypoint_index);
        assert(geohash@.subrange(0, geohash@.len() as int) =~= geohash@);
        assert(self.view() =~= old(self).view().insert(geohash@, waypoint_index)) by {
            assert forall|k: Seq<char>| #[trigger] self.lookup(k) == (if k == geohash@ {
                Some(waypoint_index)
            } else {
                old(self).lookup(k)
            }) by {}
        }
    }

    /// Every index stored under a key that starts with `prefix`, in no
    /// particular order; empty when no key does.
    pub fn get_all_with_prefix(&self, prefix: &str) -> (r: Vec<usize>)
        requires
            self.wf(),
        ensures
            r@.to_set() == indices_with_prefix(self.view(), prefix@),
    {
        let len = prefix.unicode_len();
        let mut current = self;
        let mut i: usize = 0;
        while i < len
            invariant
                len == prefix@.len(),
                i <= len,
                current.wf(),
                self.wf(),
                forall|k: Seq<char>|
                    #[trigger] self.lookup(prefix@.subrange(0, i as int) + k) == current.lookup(k),
            decreases len - i,
        {
            let c = prefix.get_char(i);
            match current.find_child(c) {
                Some(p) => {
                    let ghost prev = current;
                    current = &current.children[p].1;
                    proof {
                        prev.lemma_child_at(p as int);
                        assert forall|k: Seq<char>|
                            #[trigger] self.lookup(prefix@.subrange(0,
                                i + 1) + k) == current.lookup(k) by {
                            let k2 = seq![c] + k;
                            assert(prefix@.subrange(0, i + 1) + k =~= prefix@.subrange(0,
                                i as int) + k2);
                            assert(k2.drop_first() =~= k);
                            assert(self.lookup(prefix@.subrange(0,
                                i as int) + k2) == prev.lookup(k2));
                        }
                    }
                },
                None => {
                    proof {
                        assert(indices_with_prefix(self.view(), prefix@) =~= Set::empty()) by {
                            assert forall|v: usize| !indices_with_prefix(self.view(),
                                prefix@).contains(v) by {
                                if indices_with_prefix(self.view(), prefix@).contains(v) {
                                    let k = choose|k: Seq<char>| self.view().contains_key(k)
                                        && has_prefix(k, prefix@) && self.view()[k] == v;
                                    let t = k.subrange(i as int, k.len() as int);
                                    assert(k =~= prefix@.subrange(0, i as int) + t);
                                    assert(t[0] == prefix@[i as int]);
                                    assert(current.lookup(t) is Some);
                                }
                            }
                        }
                    }
                    return Vec::new();
                },
            }
            i = i + 1;
        }
        let mut found = Vec::new();
        current.collect_waypoints_recursive(&mut found);
        proof {
            assert(prefix@.subrange(0, len as int) =~= prefix@);
            let want = indices_with_prefix(self.view(), prefix@);
            assert forall|v: usize| want.contains(v)
                implies #[trigger] current.values().contains(v) by {
                let k = choose|k: Seq<char>| self.view().contains_key(k) && has_prefix(k, prefix@)
                    && self.view()[k] == v;
                let t = k.subrange(len as int, k.len() as int);
                assert(k =~= prefix@ + t);
                assert(self.lookup(prefix@.subrange(0, len as int) + t) == current.lookup(t));
                assert(self.lookup(k) == Some(v));
                assert(current.lookup(t) == Some(v));
            }
            assert forall|v: usize| #[trigger] current.values().contains(v)
                implies want.contains(v) by {
                let t = choose|t: Seq<char>| current.lookup(t) == Some(v);
                let k = prefix@ + t;
                assert(self.lookup(prefix@.subrange(0, len as int) + t) == current.lookup(t));
                assert(k.subrange(0, len as int) =~= prefix@);
                assert(self.lookup(k) == Some(v));
                assert(self.view().contains_key(k));
                assert(has_prefix(k, prefix@));
            }
            assert(found@.to_set() =~= indices_with_prefix(self.view(), prefix@));
        }
        found
    }
}

} // verus!
