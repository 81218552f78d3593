//! The stack slots of the variables in scope while code is generated.

use vstd::prelude::*;

verus! {

/// For each variable in scope, the offset of its slot from the stack pointer.
pub struct Frame {
    entries: Vec<(String, i32)>,
    count: usize,
}

/// The map that the first `n` entries of `s` build: a later entry for a name
/// replaces an earlier one.
pub closed spec fn slot_map(s: Seq<(String, i32)>, n: int) -> Map<Seq<char>, i32>
    decreases n,
{
    if n <= 0 || n > s.len() {
        Map::empty()
    } else {
        slot_map(s, n - 1).insert(s[n - 1].0@, s[n - 1].1)
    }
}

proof fn lemma_slot_map_prefix(s: Seq<(String, i32)>, t: Seq<(String, i32)>, n: int)
    requires
        0 <= n <= s.len(),
        n <= t.len(),
        forall|i: int| 0 <= i < n ==> s[i] == t[i],
    ensures
        slot_map(s, n) == slot_map(t, n),
    decreases n,
{
    if n > 0 {
        lemma_slot_map_prefix(s, t, n - 1);
    }
}

impl View for Frame {
    type V = Map<Seq<char>, i32>;

    closed spec fn view(&self) -> Map<Seq<char>, i32> {
        slot_map(self.entries@, self.entries.len() as int)
    }
}

impl Frame {
    /// The invariant of a frame: it holds finitely many variables, and knows how many.
    pub closed spec fn wf(&self) -> bool {
        &&& self@.dom().finite()
        &&& self.count == self@.dom().len()
        &&& self.count <= self.entries.len()
    }

    /// A frame holds finitely many variables.
    pub proof fn lemma_finite(&self)
        requires
            self.wf(),
        ensures
            self@.dom().finite(),
    {
    }

    /// A frame without variables.
    pub fn new() -> (r: Frame)
        ensures
            r.wf(),
            r@ == Map::<Seq<char>, i32>::empty(),
            r@.len() == 0,
    {
        Frame { entries: Vec::new(), count: 0 }
    }

    /// The number of variables in the frame.
    pub fn len(&self) -> (n: usize)
        requires
            self.wf(),
        ensures
            n == self@.len(),
    {
        self.count
    }

    /// The offset of the slot of `x`, if `x` is in the frame.
    pub fn get(&self, x: &String) -> (r: Option<i32>)
        ensures
            r == (if self@.contains_key(x@) {
                Some(self@[x@])
            } else {
                None
            }),
    {
        let ghost full = self@;
        let mut k: usize = self.entries.len();
        while k > 0
            invariant
                k <= self.entries.len(),
                full == slot_map(self.entries@, self.entries.len() as int),
                full.contains_key(x@) == slot_map(self.entries@, k as int).contains_key(x@),
                full.contains_key(x@) ==> full[x@] == slot_map(self.entries@, k as int)[x@],
            decreases k,
        {
            k -= 1;
            if self.entries[k].0 == *x {
                return Some(self.entries[k].1);
            }
        }
        None
    }

    /// Whether `x` is in the frame.
    pub fn contains(&self, x: &String) -> (b: bool)
        ensures
            b == self@.contains_key(x@),
    {
        self.get(x).is_some()
    }

    /// Gives `x` the slot at `offset`, whether or not `x` was in the frame before.
    pub fn insert(&mut self, x: String, offset: i32)
        requires
            old(self).wf(),
        ensures
            final(self).wf(),
            final(self)@ == old(self)@.insert(x@, offset),
            final(self)@.len() == old(self)@.len() + (if old(self)@.contains_key(x@) {
                0int
            } else {
                1int
            }),
    {
        let known: bool = self.contains(&x);
        let ghost before = self.entries@;
        let ghost n = before.len() as int;
        assert(self@.insert(x@, offset).dom() =~= self@.dom().insert(x@));
        self.entries.push((x, offset));
        proof {
            lemma_slot_map_prefix(self.entries@, before, n);
            assert(slot_map(self.entries@, n + 1) == slot_map(before, n).insert(x@, offset));
        }
        if !known {
            assert(self.count < self.entries.len());
            self.count = self.count + 1;
        }
    }

    /// A copy of the frame.
    pub fn copy(&self) -> (r: Frame)
        requires
            self.wf(),
        ensures
            r.wf(),
            r@ == self@,
    {
        let mut entries: Vec<(String, i32)> = Vec::new();
        let mut i: usize = 0;
        while i < self.entries.len()
            invariant
                i <= self.entries.len(),
                entries@ == self.entries@.take(i as int),
            decreases self.entries.len() - i,
        {
            entries.push((self.entries[i].0.clone(), self.entries[i].1));
            assert(entries@ =~= self.entries@.take(i + 1));
            i += 1;
        }
        assert(entries@ =~= self.entries@);
        Frame { entries: entries, count: self.count }
    }
}

} // verus!
