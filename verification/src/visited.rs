use vstd::prelude::*;

verus! {

/// Append-only record of the fingerprints already returned to the caller.
/// Each fingerprint is stored once, in compact positional form, so memory
/// grows with the number of distinct visited configurations only.
pub struct VisitedStateIndex {
    states: Vec<Vec<usize>>,
}

fn vecs_equal(a: &Vec<usize>, b: &Vec<usize>) -> (r: bool)
    ensures
        r <==> a@ == b@,
{
    let n = a.len();
    if n != b.len() {
        return false;
    }
    let mut i: usize = 0;
    while i < n
        invariant
            n == a@.len() == b@.len(),
            i <= n,
            forall|j: int| 0 <= j < i ==> a@[j] == b@[j],
        decreases n - i,
    {
        if a[i] != b[i] {
            return false;
        }
        i = i + 1;
    }
    proof {
        assert(a@ =~= b@);
    }
    true
}

impl VisitedStateIndex {
    /// The stored fingerprints, in insertion order.
    pub closed spec fn spec_states(self) -> Seq<Seq<usize>> {
        self.states@.map_values(|s: Vec<usize>| s@)
    }

    /// The set of visited fingerprints.
    pub open spec fn spec_set(self) -> Set<Seq<usize>> {
        self.spec_states().to_set()
    }

    /// Well-formed: no fingerprint is stored twice, so the store's length is
    /// the number of distinct visited states.
    pub open spec fn wf(self) -> bool {
        self.spec_states().no_duplicates()
    }

    /// An empty index: nothing visited yet.
    pub fn new() -> (r: VisitedStateIndex)
        ensures
            r.wf(),
            r.spec_states() == Seq::<Seq<usize>>::empty(),
    {
        let r = VisitedStateIndex { states: Vec::new() };
        proof {
            assert(r.spec_states() =~= Seq::<Seq<usize>>::empty());
        }
        r
    }

    /// Number of distinct visited fingerprints.
    pub fn size(&self) -> (r: usize)
        requires
            self.wf(),
        ensures
            r == self.spec_states().len(),
            r == self.spec_set().len(),
    {
        proof {
            self.spec_states().unique_seq_to_set();
        }
        self.states.len()
    }

    /// Whether a fingerprint was already returned.
    pub fn contains(&self, fingerprint: &Vec<usize>) -> (r: bool)
        ensures
            r == self.spec_set().contains(fingerprint@),
            r == self.spec_states().contains(fingerprint@),
    {
        let n = self.states.len();
        let mut i: usize = 0;
        while i < n
            invariant
                n == self.spec_states().len(),
                i <= n,
                forall|j: int| 0 <= j < i ==> self.spec_states()[j] != fingerprint@,
            decreases n - i,
        {
            if vecs_equal(&self.states[i], &fingerprint) {
                proof {
                    assert(self.spec_states()[i as int] == fingerprint@);
                }
                return true;
            }
            i = i + 1;
        }
        proof {
            assert(!self.spec_states().contains(fingerprint@));
        }
        false
    }

    /// Test-and-set: checks membership and inserts if absent, in one step.
    /// Returns true exactly when the fingerprint was newly inserted (the
    /// state was not previously visited); every later call with the same
    /// fingerprint returns false.
    pub fn contains_and_insert(&mut self, fingerprint: Vec<usize>) -> (newly: bool)
        requires
            old(self).wf(),
        ensures
            final(self).wf(),
            newly <==> !old(self).spec_set().contains(fingerprint@),
            final(self).spec_set() == old(self).spec_set().insert(fingerprint@),
            newly ==> final(self).spec_states() == old(self).spec_states().push(fingerprint@),
            !newly ==> final(self).spec_states() == old(self).spec_states(),
    {
        let n = self.states.len();
        let mut i: usize = 0;
        while i < n
            invariant
                *self == *old(self),
                self.wf(),
                n == self.spec_states().len(),
                i <= n,
                forall|j: int| 0 <= j < i ==> self.spec_states()[j] != fingerprint@,
            decreases n - i,
        {
            if vecs_equal(&self.states[i], &fingerprint) {
                proof {
                    assert(self.spec_states()[i as int] == fingerprint@);
                    assert(self.spec_states().contains(fingerprint@));
                    assert(self.spec_set().insert(fingerprint@) =~= self.spec_set());
                }
                return false;
            }
            i = i + 1;
        }
        proof {
            assert(forall|j: int|
                0 <= j < self.spec_states().len() ==> self.spec_states()[j] != fingerprint@);
            assert(!self.spec_states().contains(fingerprint@));
        }
        let ghost old_states = self.spec_states();
        self.states.push(fingerprint);
        proof {
            assert(self.spec_states() =~= old_states.push(fingerprint@));
            assert(self.spec_states().no_duplicates());
            assert(self.spec_set() =~= old_states.to_set().insert(fingerprint@)) by {
                assert forall|s: Seq<usize>| #[trigger]
                    self.spec_set().contains(s) implies old_states.to_set().insert(
                    fingerprint@,
                ).contains(s) by {
                    let k = choose|k: int|
                        0 <= k < self.spec_states().len() && self.spec_states()[k] == s;
                    if k < old_states.len() {
                        assert(old_states[k] == s);
                        assert(old_states.contains(s));
                    }
                }
                assert forall|s: Seq<usize>| #[trigger]
                    old_states.to_set().insert(fingerprint@).contains(s) implies self.spec_set()
                    .contains(s) by {
                    if s == fingerprint@ {
                        assert(self.spec_states()[old_states.len() as int] == s);
                        assert(self.spec_states().contains(s));
                    } else {
                        let k = choose|k: int| 0 <= k < old_states.len() && old_states[k] == s;
                        assert(self.spec_states()[k] == s);
                        assert(self.spec_states().contains(s));
                    }
                }
            }
        }
        true
    }
}

} // verus!
