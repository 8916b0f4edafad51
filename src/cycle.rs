use vstd::prelude::*;

verus! {

/// An orbit point, given by the IEEE-754 bit patterns of its real and imaginary parts.
pub type PointBits = (u64, u64);

/// A fixed-size circular backlog of the last visited orbit points, used to notice an
/// orbit that has come back to a point it visited: such an orbit cycles and never
/// escapes. Only points that were recorded take part in a match, and points match
/// only when their bit patterns are identical, so a match is never reported for a
/// point that was not visited.
#[derive(Clone, Debug)]
pub struct CycleDetector {
    backlog: Vec<PointBits>,
    write_ptr: usize,
    recorded: usize,
}

impl CycleDetector {
    /// The slots, in order; only the first `spec_recorded()` hold visited points.
    pub closed spec fn spec_backlog(&self) -> Seq<PointBits> {
        self.backlog@
    }

    /// The slot the next point is written to.
    pub closed spec fn spec_write_ptr(&self) -> nat {
        self.write_ptr as nat
    }

    /// How many slots hold visited points.
    pub closed spec fn spec_recorded(&self) -> nat {
        self.recorded as nat
    }

    /// The visited points the detector remembers: the last `backlog_len` of them.
    pub open spec fn visited(&self) -> Seq<PointBits> {
        self.spec_backlog().take(self.spec_recorded() as int)
    }

    pub open spec fn wf(&self) -> bool {
        &&& self.spec_recorded() <= self.spec_backlog().len()
        &&& self.spec_backlog().len() == 0 || self.spec_write_ptr() < self.spec_backlog().len()
        &&& self.spec_recorded() < self.spec_backlog().len() ==> self.spec_write_ptr()
            == self.spec_recorded()
    }

    /// A detector with `backlog_len` slots and nothing recorded.
    pub fn new(backlog_len: usize) -> (r: Self)
        ensures
            r.wf(),
            r.spec_backlog().len() == backlog_len,
            r.spec_recorded() == 0,
            r.spec_write_ptr() == 0,
    {
        let mut backlog: Vec<PointBits> = Vec::new();
        while backlog.len() < backlog_len
            invariant
                backlog@.len() <= backlog_len,
            decreases backlog_len - backlog@.len(),
        {
            backlog.push((0, 0));
        }
        CycleDetector { backlog, write_ptr: 0, recorded: 0 }
    }

    /// Whether `pt` is among the recorded points; `pt` is then recorded in the oldest
    /// slot. A detector with no slots records nothing and never matches.
    pub fn check_pt(&mut self, pt: PointBits) -> (r: bool)
        requires
            old(self).wf(),
        ensures
            final(self).wf(),
            r == old(self).visited().contains(pt),
            final(self).spec_backlog().len() == old(self).spec_backlog().len(),
            old(self).spec_backlog().len() == 0 ==> final(self).spec_recorded() == 0,
            old(self).spec_backlog().len() > 0 ==> final(self).spec_backlog() == old(
                self,
            ).spec_backlog().update(old(self).spec_write_ptr() as int, pt),
            old(self).spec_backlog().len() > 0 ==> final(self).spec_write_ptr() == (old(
                self,
            ).spec_write_ptr() + 1) % old(self).spec_backlog().len(),
            old(self).spec_backlog().len() > 0 ==> final(self).spec_recorded() == if old(
                self,
            ).spec_recorded() < old(self).spec_backlog().len() {
                old(self).spec_recorded() + 1
            } else {
                old(self).spec_recorded()
            },
    {
        let mut found = false;
        let mut i: usize = 0;
        while i < self.recorded
            invariant
                self.backlog@ == old(self).backlog@,
                self.recorded == old(self).recorded,
                self.recorded <= self.backlog@.len(),
                i <= self.recorded,
                found <==> exists|j: int| 0 <= j < i && self.backlog@[j] == pt,
            decreases self.recorded - i,
        {
            let prev = self.backlog[i];
            if prev.0 == pt.0 && prev.1 == pt.1 {
                found = true;
            }
            i = i + 1;
        }
        proof {
            let seen = self.backlog@.take(self.recorded as int);
            if found {
                let j = choose|j: int| 0 <= j < i && self.backlog@[j] == pt;
                assert(seen[j] == pt);
            }
            if seen.contains(pt) {
                let j = choose|j: int| 0 <= j < seen.len() && seen[j] == pt;
                assert(self.backlog@[j] == pt);
            }
        }
        let len = self.backlog.len();
        if len == 0 {
            return found;
        }
        self.backlog.set(self.write_ptr, pt);
        if self.recorded < len {
            self.recorded = self.recorded + 1;
        }
        self.write_ptr = self.write_ptr + 1;
        if self.write_ptr == len {
            self.write_ptr = 0;
            proof {
                vstd::arithmetic::div_mod::lemma_mod_self_0(len as int);
            }
        } else {
            proof {
                vstd::arithmetic::div_mod::lemma_small_mod(self.write_ptr as nat, len as nat);
            }
        }
        found
    }

    pub fn backlog_len(&self) -> (r: usize)
        ensures
            r == self.spec_backlog().len(),
    {
        self.backlog.len()
    }
}

} // verus!
