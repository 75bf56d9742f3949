use vstd::prelude::*;

verus! {

/// A forest of labels, each pointing at its parent; a label that is its own
/// parent is the root of its set. Label 0 is reserved for "no label".
pub struct Forest {
    pub parent: Vec<usize>,
    /// The root that each label resolves to.
    pub roots: Ghost<Seq<int>>,
    /// A measure that grows strictly from each label to its parent.
    pub rank: Ghost<Seq<nat>>,
    /// A strict upper bound on every rank.
    pub bound: Ghost<nat>,
}

impl Forest {
    pub open spec fn len(&self) -> nat {
        self.parent@.len()
    }

    /// The root of label `x`.
    pub open spec fn root(&self, x: int) -> int {
        self.roots@[x]
    }

    pub open spec fn wf(&self) -> bool {
        let n = self.parent@.len();
        &&& n >= 1
        &&& self.roots@.len() == n
        &&& self.rank@.len() == n
        &&& forall|i: int| 0 <= i < n ==> #[trigger] self.rank@[i] < self.bound@
        &&& forall|i: int|
            0 <= i < n ==> 0 <= #[trigger] self.roots@[i] < n && self.parent@[self.roots@[i]] as int
                == self.roots@[i]
        &&& forall|i: int|
            #![trigger self.parent@[i]]
            0 <= i < n ==> {
                &&& (self.parent@[i] as int) < n
                &&& (self.parent@[i] as int == i ==> self.roots@[i] == i)
                &&& (self.parent@[i] as int != i ==> self.rank@[i] < self.rank@[
                    self.parent@[i] as int
                ] && self.roots@[self.parent@[i] as int] == self.roots@[i])
            }
    }

    /// A forest that holds only the reserved label 0.
    pub fn new() -> (f: Forest)
        ensures
            f.wf(),
            f.len() == 1,
            f.root(0) == 0,
    {
        let mut parent: Vec<usize> = Vec::new();
        parent.push(0);
        let roots: Ghost<Seq<int>> = Ghost(Seq::empty().push(0int));
        let rank: Ghost<Seq<nat>> = Ghost(Seq::empty().push(0nat));
        let bound: Ghost<nat> = Ghost(1nat);
        Forest { parent, roots, rank, bound }
    }

    /// Adds a fresh label, which is the root of a set of its own.
    pub fn make_set(&mut self) -> (l: usize)
        requires
            old(self).wf(),
            old(self).len() < usize::MAX,
        ensures
            final(self).wf(),
            l as int == old(self).len(),
            final(self).len() == old(self).len() + 1,
            final(self).roots@ == old(self).roots@.push(l as int),
    {
        let l = self.parent.len();
        self.parent.push(l);
        self.roots = Ghost(self.roots@.push(l as int));
        self.rank = Ghost(self.rank@.push(0nat));
        proof {
            assert(self.parent@[0] == old(self).parent@[0]);
            assert forall|i: int| 0 <= i < self.parent@.len() implies #[trigger] self.parent@[i] == (if i
                == l {
                l
            } else {
                old(self).parent@[i]
            }) by {}
        }
        l
    }
}

/// The root of `x` is at least as high as `x`, strictly when `x` is not a root.
proof fn lemma_rank_below_root(f: &Forest, x: int)
    requires
        f.wf(),
        0 <= x < f.len(),
    ensures
        f.rank@[x] <= f.rank@[f.root(x)],
        f.parent@[x] as int != x ==> f.rank@[x] < f.rank@[f.root(x)],
    decreases f.bound@ - f.rank@[x],
{
    let p = f.parent@[x] as int;
    if p != x {
        assert(f.rank@[x] < f.rank@[p] < f.bound@);
        lemma_rank_below_root(f, p);
    }
}

/// Root of the set that holds `x`, shortening the path on the way.
pub fn find(x: usize, parent: &mut Forest) -> (r: usize)
    requires
        old(parent).wf(),
        (x as int) < old(parent).len(),
    ensures
        final(parent).wf(),
        r as int == old(parent).root(x as int),
        final(parent).roots@ == old(parent).roots@,
        final(parent).rank@ == old(parent).rank@,
        final(parent).bound@ == old(parent).bound@,
        final(parent).len() == old(parent).len(),
        final(parent).parent@[x as int] as int == old(parent).root(x as int),
        forall|i: int|
            0 <= i < old(parent).len() && i != x ==> #[trigger] final(parent).parent@[i]
                == old(parent).parent@[i] || final(parent).parent@[i] as int == old(parent).root(i),
    decreases old(parent).bound@ - old(parent).rank@[x as int],
{
    let p = parent.parent[x];
    if p != x {
        assert(parent.rank@[x as int] < parent.rank@[p as int] < parent.bound@);
        let root = find(p, parent);
        proof {
            lemma_rank_below_root(parent, x as int);
        }
        parent.parent.set(x, root);
        root
    } else {
        x
    }
}

/// `roots` after the set with root `b` has been joined under root `a`.
pub open spec fn joined(roots: Seq<int>, a: int, b: int) -> Seq<int> {
    roots.map_values(|r: int| if r == b { a } else { r })
}

/// Joins the sets of `a` and `b`; the root of `a`'s set stays the root.
pub fn union(a: usize, b: usize, parent: &mut Forest)
    requires
        old(parent).wf(),
        (a as int) < old(parent).len(),
        (b as int) < old(parent).len(),
    ensures
        final(parent).wf(),
        final(parent).len() == old(parent).len(),
        final(parent).roots@ == joined(
            old(parent).roots@,
            old(parent).root(a as int),
            old(parent).root(b as int),
        ),
{
    let ra = find(a, parent);
    let rb = find(b, parent);
    if ra != rb {
        let ghost old_f = *parent;
        parent.parent.set(rb, ra);
        proof {
            let rk = old_f.rank@;
            let new_ra: nat = if rk[ra as int] > rk[rb as int] {
                rk[ra as int]
            } else {
                rk[rb as int] + 1
            };
            parent.rank = Ghost(rk.update(ra as int, new_ra));
            parent.bound = Ghost(old_f.bound@ + 1);
            parent.roots = Ghost(joined(old_f.roots@, ra as int, rb as int));
            let n = parent.parent@.len();
            assert forall|i: int| 0 <= i < n implies #[trigger] parent.rank@[i] < parent.bound@ by {
                assert(rk[i] < old_f.bound@);
            }
            assert forall|i: int| 0 <= i < n implies 0 <= #[trigger] parent.roots@[i] < n
                && parent.parent@[parent.roots@[i]] as int == parent.roots@[i] by {
                assert(old_f.roots@[i] < n);
            }
            assert forall|i: int| #![trigger parent.parent@[i]] 0 <= i < n implies {
                &&& (parent.parent@[i] as int) < n
                &&& (parent.parent@[i] as int == i ==> parent.roots@[i] == i)
                &&& (parent.parent@[i] as int != i ==> parent.rank@[i] < parent.rank@[
                    parent.parent@[i] as int
                ] && parent.roots@[parent.parent@[i] as int] == parent.roots@[i])
            } by {
                assert(old_f.parent@[i] < n);
                assert(old_f.roots@[i] < n);
                if i != rb as int {
                    assert(parent.parent@[i] == old_f.parent@[i]);
                    let p = old_f.parent@[i] as int;
                    if p != i {
                        assert(old_f.roots@[p] == old_f.roots@[i]);
                    }
                }
            }
        }
    } else {
        assert(joined(parent.roots@, ra as int, rb as int) =~= parent.roots@);
    }
}

} // verus!
