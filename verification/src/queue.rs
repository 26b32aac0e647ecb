//! A binary min-heap of `(key, node)` pairs: the priority queue of the search.

use vstd::prelude::*;
use vstd::multiset::Multiset;

verus! {

broadcast use {
    vstd::seq_lib::group_to_multiset_ensures,
    vstd::multiset::group_multiset_axioms,
};

pub open spec fn parent(k: int) -> int {
    (k - 1) / 2
}

/// Every entry's key is at least its parent's key.
pub open spec fn heap_ordered(s: Seq<(u128, u32)>) -> bool {
    forall|k: int| 0 < k < s.len() ==> s[parent(k)].0 <= (#[trigger] s[k]).0
}

/// Heap order holds everywhere except below position `i`, and the parent of
/// `i` is no larger than the children of `i`.
pub open spec fn ordered_except_below(s: Seq<(u128, u32)>, i: int) -> bool {
    &&& forall|k: int| 0 < k < s.len() && parent(k) != i ==> s[parent(k)].0 <= (#[trigger] s[k]).0
    &&& i > 0 ==> forall|c: int|
        0 < c < s.len() && parent(c) == i ==> s[parent(i)].0 <= (#[trigger] s[c]).0
}

proof fn lemma_sift_down_step(s: Seq<(u128, u32)>, i: int, m: int)
    requires
        0 <= i < m < s.len(),
        parent(m) == i,
        s[m].0 < s[i].0,
        forall|c: int| 0 < c < s.len() && parent(c) == i ==> s[m].0 <= (#[trigger] s[c]).0,
        ordered_except_below(s, i),
    ensures
        ordered_except_below(s.update(i, s[m]).update(m, s[i]), m),
{
    let s2 = s.update(i, s[m]).update(m, s[i]);
    assert forall|k: int| 0 < k < s2.len() && parent(k) != m implies s2[parent(k)].0 <= (
    #[trigger] s2[k]).0 by {
        if k == m {
        } else if parent(k) == i {
        } else if k == i {
            assert(s[parent(i)].0 <= s[m].0);
        }
    }
    assert forall|c: int| 0 < c < s2.len() && parent(c) == m implies s2[parent(m)].0 <= (
    #[trigger] s2[c]).0 by {
        assert(s[m].0 <= s[c].0);
    }
}

/// A priority queue handing out the entry with the smallest key first.
pub struct MinQueue {
    items: Vec<(u128, u32)>,
}

proof fn lemma_root_is_min(s: Seq<(u128, u32)>, k: int)
    requires
        heap_ordered(s),
        0 <= k < s.len(),
    ensures
        s[0].0 <= s[k].0,
    decreases k,
{
    if k > 0 {
        lemma_root_is_min(s, parent(k));
    }
}

proof fn lemma_swap_multiset(s: Seq<(u128, u32)>, i: int, j: int)
    requires
        0 <= i < s.len(),
        0 <= j < s.len(),
    ensures
        s.update(i, s[j]).update(j, s[i]).to_multiset() == s.to_multiset(),
{
    let s1 = s.update(i, s[j]);
    assert(s1.to_multiset() == s.to_multiset().insert(s[j]).remove(s[i]));
    assert(s1.update(j, s[i]).to_multiset() == s1.to_multiset().insert(s[i]).remove(s1[j]));
    assert(s1[j] == s[j]);
    assert(s.to_multiset().insert(s[j]).remove(s[i]).insert(s[i]).remove(s[j]) =~= s.to_multiset());
}

impl MinQueue {
    /// The entries held, with their multiplicities.
    pub closed spec fn view(&self) -> Multiset<(u128, u32)> {
        self.items@.to_multiset()
    }

    pub closed spec fn wf(&self) -> bool {
        heap_ordered(self.items@)
    }

    pub fn new() -> (q: MinQueue)
        ensures
            q.wf(),
            q@ == Multiset::<(u128, u32)>::empty(),
    {
        let q = MinQueue { items: Vec::new() };
        assert(q.items@ =~= Seq::<(u128, u32)>::empty());
        q
    }

    pub fn len(&self) -> (n: usize)
        ensures
            n == self@.len(),
    {
        self.items.len()
    }

    fn swap(&mut self, i: usize, j: usize)
        requires
            i < old(self).items@.len(),
            j < old(self).items@.len(),
        ensures
            final(self).items@ == old(self).items@.update(i as int, old(self).items@[j as int]).update(
                j as int,
                old(self).items@[i as int],
            ),
            final(self)@ == old(self)@,
    {
        let a = self.items[i];
        let b = self.items[j];
        self.items.set(i, b);
        self.items.set(j, a);
        proof {
            lemma_swap_multiset(old(self).items@, i as int, j as int);
        }
    }

    /// Adds an entry.
    pub fn push(&mut self, key: u128, node: u32)
        requires
            old(self).wf(),
        ensures
            final(self).wf(),
            final(self)@ == old(self)@.insert((key, node)),
    {
        self.items.push((key, node));
        let mut i = self.items.len() - 1;
        let mut done = false;
        proof {
            assert(self.items@ == old(self).items@.push((key, node)));
        }
        while i > 0 && !done
            invariant
                done ==> heap_ordered(self.items@),
                0 <= i < self.items@.len(),
                self@ == old(self)@.insert((key, node)),
                forall|k: int|
                    0 < k < self.items@.len() && k != i ==> self.items@[parent(k)].0 <= (
                    #[trigger] self.items@[k]).0,
                i > 0 ==> forall|c: int|
                    0 < c < self.items@.len() && parent(c) == i ==> self.items@[parent(i as int)].0
                        <= (#[trigger] self.items@[c]).0,
            decreases i + (if done { 0int } else { 1int }),
        {
            let p = (i - 1) / 2;
            if self.items[i].0 < self.items[p].0 {
                let ghost s = self.items@;
                self.swap(i, p);
                proof {
                    let s2 = self.items@;
                    assert forall|k: int|
                        0 < k < s2.len() && k != p implies s2[parent(k)].0 <= (#[trigger] s2[k]).0 by {
                        {
                            if k == i {
                            } else if parent(k) == i {
                            } else if parent(k) == p {
                                assert(s[p as int].0 <= s[k].0);
                            }
                        }
                    }
                    if p > 0 {
                        assert forall|c: int|
                            0 < c < s2.len() && parent(c) == p implies s2[parent(p as int)].0 <= (
                            #[trigger] s2[c]).0 by {
                            assert(s[parent(p as int)].0 <= s[p as int].0);
                            if c != i {
                                assert(s[p as int].0 <= s[c].0);
                            }
                        }
                    }
                }
                i = p;
            } else {
                done = true;
            }
        }
    }

    /// Removes and returns an entry with the smallest key, or `None` when empty.
    pub fn pop(&mut self) -> (r: Option<(u128, u32)>)
        requires
            old(self).wf(),
        ensures
            final(self).wf(),
            match r {
                None => old(self)@.len() == 0 && final(self)@ == old(self)@,
                Some(e) => {
                    &&& old(self)@.count(e) > 0
                    &&& final(self)@ == old(self)@.remove(e)
                    &&& forall|x: (u128, u32)| old(self)@.count(x) > 0 ==> e.0 <= x.0
                },
            },
    {
        let n = self.items.len();
        if n == 0 {
            return None;
        }
        let ghost s0 = self.items@;
        proof {
            assert forall|x: (u128, u32)| s0.to_multiset().count(x) > 0 implies s0[0].0 <= x.0 by {
                let k = choose|k: int| 0 <= k < s0.len() && s0[k] == x;
                lemma_root_is_min(s0, k);
            }
        }
        let last = self.items.pop().unwrap();
        proof {
            assert(s0 == self.items@.push(last));
        }
        if n == 1 {
            proof {
                assert(self.items@ =~= Seq::<(u128, u32)>::empty());
                assert(s0[0] == last);
                assert(self@ =~= s0.to_multiset().remove(last));
            }
            return Some(last);
        }
        let top = self.items[0];
        self.items.set(0, last);
        proof {
            let s1 = s0.drop_last();
            assert(s1.update(0, last).to_multiset() == s1.to_multiset().insert(last).remove(s1[0]));
            assert(s0.to_multiset() == s1.to_multiset().insert(last));
            assert(s1.to_multiset().insert(last).remove(top) =~= s0.to_multiset().remove(top));
        }
        let mut i: usize = 0;
        let len = self.items.len();
        let mut done = false;
        while !done
            invariant
                done ==> heap_ordered(self.items@),
                len == self.items@.len(),
                0 <= i < len,
                self@ == s0.to_multiset().remove(top),
                ordered_except_below(self.items@, i as int),
            decreases len - i + (if done { 0int } else { 1int }),
        {
            let l = if i <= (len - 1) / 2 { 2 * i + 1 } else { len };
            let r = if l < len { l + 1 } else { len };
            let mut m = i;
            if l < len && self.items[l].0 < self.items[m].0 {
                m = l;
            }
            if r < len && self.items[r].0 < self.items[m].0 {
                m = r;
            }
            proof {
                assert forall|c: int| 0 < c < len && parent(c) == i implies self.items@[m as int].0
                    <= (#[trigger] self.items@[c]).0 by {
                    assert(c == l || c == r);
                }
            }
            if m == i {
                done = true;
            } else {
                let ghost s = self.items@;
                proof {
                    lemma_sift_down_step(s, i as int, m as int);
                }
                self.swap(i, m);
                i = m;
            }
        }
        Some(top)
    }
}

} // verus!
