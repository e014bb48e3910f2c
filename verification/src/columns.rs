//! Column-requirement sets: unordered, deduplicated collections of column
//! indices, interpreted relative to the output schema of the plan node they
//! are attached to.

use vstd::prelude::*;

verus! {

/// All members of `s` are below the bound `n`.
pub open spec fn bounded(s: Set<usize>, n: int) -> bool {
    forall|c: usize| s.contains(c) ==> c < n
}

/// A set of column indices. The vector carries no meaning-bearing order and
/// holds no duplicates; the abstract value is the set of its elements.
pub struct ColumnSet {
    cols: Vec<usize>,
}

impl View for ColumnSet {
    type V = Set<usize>;

    closed spec fn view(&self) -> Set<usize> {
        Set::new(|c: usize| self.cols@.contains(c))
    }
}

impl ColumnSet {
    /// The underlying elements, for iteration contracts; every element is in
    /// the abstract set and vice versa (`lemma_view`).
    pub closed spec fn elems(&self) -> Seq<usize> {
        self.cols@
    }

    /// The abstract set holds exactly the elements of `elems()`.
    pub proof fn lemma_view(&self)
        ensures
            forall|c: usize| #[trigger] self@.contains(c) <==> self.elems().contains(c),
    {
    }

    pub fn new() -> (r: ColumnSet)
        ensures
            r@ == Set::<usize>::empty(),
            r.elems().len() == 0,
    {
        let r = ColumnSet { cols: Vec::new() };
        proof {
            assert(r@ =~= Set::<usize>::empty());
        }
        r
    }

    pub fn len(&self) -> (n: usize)
        ensures
            n == self.elems().len(),
    {
        self.cols.len()
    }

    pub fn at(&self, i: usize) -> (c: usize)
        requires
            i < self.elems().len(),
        ensures
            c == self.elems()[i as int],
            self@.contains(c),
    {
        self.cols[i]
    }

    pub fn contains(&self, c: usize) -> (r: bool)
        ensures
            r == self@.contains(c),
    {
        let n = self.cols.len();
        let mut i: usize = 0;
        while i < n
            invariant
                0 <= i <= n,
                n == self.cols@.len(),
                forall|j: int| 0 <= j < i ==> self.cols@[j] != c,
            decreases n - i,
        {
            if self.cols[i] == c {
                return true;
            }
            i += 1;
        }
        false
    }

    pub fn insert(&mut self, c: usize)
        ensures
            final(self)@ == old(self)@.insert(c),
    {
        if !self.contains(c) {
            self.cols.push(c);
            proof {
                assert(forall|j: int| 0 <= j < old(self).cols@.len()
                    ==> self.cols@[j] == old(self).cols@[j]);
                assert(self.cols@[old(self).cols@.len() as int] == c);
                assert(forall|x: usize| #[trigger] self.cols@.contains(x)
                    <==> old(self).cols@.contains(x) || x == c);
                assert(self@ =~= old(self)@.insert(c));
            }
        } else {
            proof {
                assert(self@ =~= old(self)@.insert(c));
            }
        }
    }

    pub fn remove(&mut self, c: usize)
        ensures
            final(self)@ == old(self)@.remove(c),
    {
        let n = self.cols.len();
        let mut out: Vec<usize> = Vec::new();
        let mut i: usize = 0;
        while i < n
            invariant
                0 <= i <= n,
                n == self.cols@.len(),
                self == old(self),
                forall|x: usize| #[trigger] out@.contains(x)
                    <==> self.cols@.take(i as int).contains(x) && x != c,
            decreases n - i,
        {
            let v = self.cols[i];
            proof {
                lemma_take_one_more(self.cols@, i as int);
            }
            if v != c {
                let ghost out0 = out@;
                out.push(v);
                proof {
                    assert(forall|j: int| 0 <= j < out0.len() ==> out@[j] == out0[j]);
                    assert(out@[out0.len() as int] == v);
                    assert(forall|x: usize| #[trigger] out@.contains(x)
                        <==> out0.contains(x) || x == v);
                }
            }
            i += 1;
        }
        proof {
            assert(self.cols@.take(n as int) =~= self.cols@);
        }
        self.cols = out;
        proof {
            assert(self@ =~= old(self)@.remove(c));
        }
    }

    /// Keep only the columns that `other` also requires.
    pub fn retain_intersect(&mut self, other: &ColumnSet)
        ensures
            final(self)@ == old(self)@.intersect(other@),
    {
        let n = self.cols.len();
        let mut out: Vec<usize> = Vec::new();
        let mut i: usize = 0;
        while i < n
            invariant
                0 <= i <= n,
                n == self.cols@.len(),
                self == old(self),
                forall|x: usize| #[trigger] out@.contains(x)
                    <==> self.cols@.take(i as int).contains(x) && other@.contains(x),
            decreases n - i,
        {
            let v = self.cols[i];
            proof {
                lemma_take_one_more(self.cols@, i as int);
            }
            if other.contains(v) {
                let ghost out0 = out@;
                out.push(v);
                proof {
                    assert(forall|j: int| 0 <= j < out0.len() ==> out@[j] == out0[j]);
                    assert(out@[out0.len() as int] == v);
                    assert(forall|x: usize| #[trigger] out@.contains(x)
                        <==> out0.contains(x) || x == v);
                }
            }
            i += 1;
        }
        proof {
            assert(self.cols@.take(n as int) =~= self.cols@);
        }
        self.cols = out;
        proof {
            assert(self@ =~= old(self)@.intersect(other@));
        }
    }

    /// An independent copy with the same abstract value.
    pub fn duplicate(&self) -> (r: ColumnSet)
        ensures
            r@ == self@,
            r.elems() == self.elems(),
    {
        let n = self.cols.len();
        let mut out: Vec<usize> = Vec::new();
        let mut i: usize = 0;
        while i < n
            invariant
                0 <= i <= n,
                n == self.cols@.len(),
                out@ == self.cols@.take(i as int),
            decreases n - i,
        {
            out.push(self.cols[i]);
            proof {
                assert(out@ =~= self.cols@.take(i + 1));
            }
            i += 1;
        }
        proof {
            assert(self.cols@.take(n as int) =~= self.cols@);
        }
        ColumnSet { cols: out }
    }
}

/// Membership in a one-longer take: the prefix's elements plus the element at `i`.
proof fn lemma_take_one_more(s: Seq<usize>, i: int)
    requires
        0 <= i < s.len(),
    ensures
        forall|x: usize| #[trigger] s.take(i + 1).contains(x)
            <==> s.take(i).contains(x) || x == s[i],
{
    assert forall|x: usize| #[trigger] s.take(i + 1).contains(x)
        implies s.take(i).contains(x) || x == s[i] by {
        let j = choose|j: int| 0 <= j < s.take(i + 1).len() && #[trigger] s.take(i + 1)[j] == x;
        if j < i {
            assert(s.take(i)[j] == x);
        }
    }
    assert forall|x: usize| s.take(i).contains(x) || x == s[i]
        implies #[trigger] s.take(i + 1).contains(x) by {
        if s.take(i).contains(x) {
            let j = choose|j: int| 0 <= j < s.take(i).len() && #[trigger] s.take(i)[j] == x;
            assert(s.take(i + 1)[j] == x);
        } else {
            assert(s.take(i + 1)[i] == x);
        }
    }
}

} // verus!
