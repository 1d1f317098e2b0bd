use vstd::prelude::*;

verus! {

/// The stack of indentation levels of the collections that enclose the
/// current line, innermost last.
pub struct Tracker {
    levels: Vec<usize>,
}

pub open spec fn strictly_increasing(v: Seq<usize>) -> bool {
    forall|i: int, j: int| 0 <= i < j < v.len() ==> v[i] < v[j]
}

impl Tracker {
    pub closed spec fn view(&self) -> Seq<usize> {
        self.levels@
    }

    /// The root level is zero, and each level is deeper than the one that
    /// encloses it.
    pub open spec fn wf(&self) -> bool {
        &&& self@.len() >= 1
        &&& self@[0] == 0
        &&& strictly_increasing(self@)
    }

    pub open spec fn top(&self) -> usize {
        self@.last()
    }

    /// A tracker at the root of a document.
    pub fn new() -> (r: Tracker)
        ensures
            r.wf(),
            r@ == seq![0usize],
    {
        let r = Tracker { levels: vec![0usize] };
        assert(r@ =~= seq![0usize]);
        r
    }

    /// Whether a line indented by `n` belongs to the innermost level.
    pub fn at_current_level(&self, n: usize) -> (r: bool)
        requires
            self.wf(),
        ensures
            r == (n == self.top()),
    {
        n == self.levels[self.levels.len() - 1]
    }

    /// Opens a level at `n` if it is deeper than the innermost one.
    pub fn enter_deeper(&mut self, n: usize) -> (r: bool)
        requires
            old(self).wf(),
        ensures
            final(self).wf(),
            r == (n > old(self).top()),
            r ==> final(self)@ == old(self)@.push(n),
            !r ==> final(self)@ == old(self)@,
    {
        if n > self.levels[self.levels.len() - 1] {
            self.levels.push(n);
            true
        } else {
            false
        }
    }

    /// Closes levels until the innermost one is `n`; fails, and changes
    /// nothing, if `n` is no open level.
    pub fn exit_to(&mut self, n: usize) -> (r: bool)
        requires
            old(self).wf(),
        ensures
            final(self).wf(),
            r == old(self)@.contains(n),
            r ==> final(self)@.len() <= old(self)@.len(),
            r ==> final(self)@ =~= old(self)@.take(final(self)@.len() as int),
            r ==> final(self).top() == n,
            !r ==> final(self)@ == old(self)@,
    {
        let mut j: usize = self.levels.len();
        while j > 0 && self.levels[j - 1] != n
            invariant
                self.wf(),
                0 <= j <= self@.len(),
                forall|m: int| j <= m < self@.len() ==> self@[m] != n,
            decreases j,
        {
            j = j - 1;
        }
        if j == 0 {
            assert(!self@.contains(n));
            return false;
        }
        let ghost before = self@;
        while self.levels.len() > j
            invariant
                1 <= j <= before.len(),
                j <= self.levels@.len() <= before.len(),
                self.levels@ =~= before.take(self.levels@.len() as int),
            decreases self.levels.len(),
        {
            self.levels.pop();
            assert(self.levels@ =~= before.take(self.levels@.len() as int));
        }
        assert(self@ =~= before.take(j as int));
        true
    }

    /// After a deeper level `d` is opened above the innermost level `n`, `n`
    /// is open exactly once, just below `d`.
    pub proof fn lemma_exit_to_parent(&self, n: usize, d: usize)
        requires
            self.wf(),
            n == self.top(),
            d > n,
        ensures
            ({
                let pushed = self@.push(d);
                &&& pushed.contains(n)
                &&& forall|m: int|
                    0 <= m < pushed.len() && pushed[m] == n ==> m == self@.len() - 1
            }),
    {
        let pushed = self@.push(d);
        assert(pushed[self@.len() - 1] == n);
    }
}

} // verus!
